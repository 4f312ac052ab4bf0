//! Population operators: rank-based roulette selection, elitist truncation,
//! locus-swap mutation, and order crossover with conflict repair.

use vstd::prelude::*;

use std::rc::Rc;

use crate::genalg::chromo::{
    chromo_eqv, lemma_chromo_wf, lemma_valid_gene_multiset, phenes_of, valid_gene, Chromo,
};
use crate::genalg::rng::{rand_index, rand_word};
use crate::graph::{share_graph, VarLifetimeGraph};
use crate::lifetime::VarId;

verus! {

/// The chromosome is equivalent to some member of `pop`.
pub open spec fn member_of(c: Chromo, pop: Seq<Chromo>) -> bool {
    exists|j: int| 0 <= j < pop.len() && chromo_eqv(c, #[trigger] pop[j])
}

/// Every member of `r` is equivalent to some member of `pop`.
pub open spec fn drawn_from(r: Seq<Chromo>, pop: Seq<Chromo>) -> bool {
    forall|k: int| 0 <= k < r.len() ==> member_of(#[trigger] r[k], pop)
}

/// Ascending order of fitness: color counts never decrease along the list.
pub open spec fn sorted_by_phene(s: Seq<Chromo>) -> bool {
    forall|a: int, b: int|
        0 <= a <= b < s.len() ==> s[a].spec_phene() <= s[b].spec_phene()
}

/// The population's color counts, sorted ascending.
pub open spec fn sorted_phenes(pop: Seq<Chromo>) -> Seq<u16> {
    phenes_of(pop).sort_by(|a: u16, b: u16| a <= b)
}

/// Total rank weight over a population of `n`: `1 + 2 + ... + n`.
pub open spec fn rank_total(n: int) -> nat
    decreases n,
{
    if n <= 0 {
        0
    } else {
        (rank_total(n - 1) + n) as nat
    }
}

/// Rank weight consumed by the first `q` roulette buckets when the
/// population is sorted ascending and position `t` carries weight `n - t`.
pub open spec fn rank_cum(n: int, q: int) -> int
    decreases q,
{
    if q <= 0 {
        0
    } else {
        rank_cum(n, q - 1) + (n - q + 1)
    }
}

/// The total rank weight grows with the population.
proof fn lemma_rank_total_monotonic(i: int, j: int)
    requires
        i <= j,
    ensures
        rank_total(i) <= rank_total(j),
    decreases j - i,
{
    if i < j {
        lemma_rank_total_monotonic(i, j - 1);
    }
}

/// The cumulative bucket weight is the total weight minus what the last
/// `n - q` buckets carry.
proof fn lemma_rank_cum_diff(n: int, q: int)
    requires
        0 <= q <= n,
    ensures
        rank_cum(n, q) == rank_total(n) - rank_total(n - q),
    decreases q,
{
    if q > 0 {
        lemma_rank_cum_diff(n, q - 1);
    }
}

/// Every cumulative bucket weight lies between zero and the total.
proof fn lemma_rank_cum_bounds(n: int)
    requires
        n >= 0,
    ensures
        forall|p: int| 0 <= p <= n ==> 0 <= #[trigger] rank_cum(n, p) <= rank_total(n),
        rank_cum(n, n) == rank_total(n),
{
    assert forall|p: int| 0 <= p <= n implies 0 <= #[trigger] rank_cum(n, p) <= rank_total(
        n,
    ) by {
        lemma_rank_cum_diff(n, p);
        lemma_rank_total_monotonic(0, n - p);
        lemma_rank_total_monotonic(n - p, n);
    }
    lemma_rank_cum_diff(n, n);
}

/// Clones every chromosome of a population, in order.
fn clone_chromos(v: &[Chromo]) -> (r: Vec<Chromo>)
    ensures
        r@.len() == v@.len(),
        forall|k: int| 0 <= k < v@.len() ==> chromo_eqv(#[trigger] r@[k], v@[k]),
        phenes_of(r@) == phenes_of(v@),
        drawn_from(r@, v@),
{
    let mut r: Vec<Chromo> = Vec::new();
    let mut i: usize = 0;
    while i < v.len()
        invariant
            i <= v@.len(),
            r@.len() == i,
            forall|k: int| 0 <= k < i ==> chromo_eqv(#[trigger] r@[k], v@[k]),
        decreases v@.len() - i,
    {
        r.push(v[i].clone());
        i = i + 1;
    }
    proof {
        assert(phenes_of(r@) =~= phenes_of(v@));
        assert forall|k: int| 0 <= k < r@.len() implies member_of(#[trigger] r@[k], v@) by {
            assert(chromo_eqv(r@[k], v@[k]));
        }
    }
    r
}

/// Position of a chromosome with minimal color count.
fn min_phene_index(v: &Vec<Chromo>) -> (r: usize)
    requires
        v@.len() > 0,
    ensures
        r < v@.len(),
        forall|m: int| 0 <= m < v@.len() ==> v@[r as int].spec_phene() <= v@[m].spec_phene(),
{
    let mut r: usize = 0;
    let mut best: u16 = v[0].phene();
    let mut m: usize = 1;
    while m < v.len()
        invariant
            r < m <= v@.len() || (r == 0 && m <= v@.len()),
            r < v@.len(),
            best == v@[r as int].spec_phene(),
            forall|t: int| 0 <= t < m ==> best <= v@[t].spec_phene(),
        decreases v@.len() - m,
    {
        let p = v[m].phene();
        if p < best {
            r = m;
            best = p;
        }
        m = m + 1;
    }
    r
}

/// Removing position `m` by a swap with the last entry removes exactly one
/// occurrence of `s[m]` from the multiset.
proof fn lemma_swap_remove_multiset(s: Seq<u16>, m: int)
    requires
        0 <= m < s.len(),
    ensures
        s.update(m, s[s.len() - 1]).drop_last().to_multiset() == s.to_multiset().remove(s[m]),
{
    broadcast use vstd::seq_lib::group_to_multiset_ensures;
    broadcast use vstd::multiset::group_multiset_axioms;

    let last = s.len() - 1;
    if m == last {
        assert(s.update(m, s[last]) =~= s);
        assert(s.drop_last() =~= s.remove(last));
        assert(s.remove(last).to_multiset() =~= s.to_multiset().remove(s[last]));
    } else {
        let u = s.update(m, s[last]);
        assert(u.to_multiset() =~= s.to_multiset().remove(s[m]).insert(s[last])) by {
            vstd::seq_lib::to_multiset_update(s, m, s[last]);
        }
        assert(u.drop_last() =~= u.remove(last));
        assert(u.remove(last).to_multiset() =~= u.to_multiset().remove(u[last]));
        assert(u[last] == s[last]);
        assert(s.contains(s[m]));
        assert(s.to_multiset().count(s[m]) > 0);
        assert forall|x: u16|
            u.drop_last().to_multiset().count(x) == s.to_multiset().remove(s[m]).count(x) by {
            assert(u.drop_last().to_multiset().count(x) == s.to_multiset().remove(s[m]).insert(
                s[last],
            ).remove(s[last]).count(x));
        }
        assert(u.drop_last().to_multiset() =~= s.to_multiset().remove(s[m]));
    }
}

/// Clones the population into a vector sorted ascending by color count.
fn sort_by_phene(population: &[Chromo]) -> (r: Vec<Chromo>)
    ensures
        r@.len() == population@.len(),
        sorted_by_phene(r@),
        drawn_from(r@, population@),
        phenes_of(r@).to_multiset() == phenes_of(population@).to_multiset(),
{
    broadcast use vstd::seq_lib::group_to_multiset_ensures;
    broadcast use vstd::multiset::group_multiset_axioms;

    let mut remaining = clone_chromos(population);
    let mut sorted: Vec<Chromo> = Vec::new();
    proof {
        assert(phenes_of(sorted@) =~= Seq::<u16>::empty());
        assert(phenes_of(sorted@).to_multiset().add(phenes_of(remaining@).to_multiset())
            =~= phenes_of(population@).to_multiset());
    }
    while remaining.len() > 0
        invariant
            sorted@.len() + remaining@.len() == population@.len(),
            sorted_by_phene(sorted@),
            forall|s: int, m: int|
                0 <= s < sorted@.len() && 0 <= m < remaining@.len() ==> sorted@[s].spec_phene()
                    <= remaining@[m].spec_phene(),
            drawn_from(sorted@, population@),
            drawn_from(remaining@, population@),
            phenes_of(sorted@).to_multiset().add(phenes_of(remaining@).to_multiset())
                == phenes_of(population@).to_multiset(),
        decreases remaining@.len(),
    {
        let ghost old_sorted = sorted@;
        let ghost old_rem = remaining@;
        let m = min_phene_index(&remaining);
        let c = remaining.swap_remove(m);
        sorted.push(c);
        proof {
            broadcast use vstd::seq_lib::group_to_multiset_ensures;
            broadcast use vstd::multiset::group_multiset_axioms;

            let last = old_rem.len() - 1;
            assert(sorted@ == old_sorted.push(old_rem[m as int]));
            assert(phenes_of(sorted@) =~= phenes_of(old_sorted).push(
                old_rem[m as int].spec_phene(),
            ));
            assert(phenes_of(remaining@) =~= phenes_of(old_rem).update(
                m as int,
                phenes_of(old_rem)[last],
            ).drop_last());
            lemma_swap_remove_multiset(phenes_of(old_rem), m as int);
            let pm = phenes_of(old_rem)[m as int];
            assert(pm == old_rem[m as int].spec_phene());
            assert(phenes_of(old_rem).contains(pm));
            assert(phenes_of(old_rem).to_multiset().count(pm) > 0);
            assert(phenes_of(old_sorted).push(pm).to_multiset() == phenes_of(
                old_sorted,
            ).to_multiset().insert(pm));
            assert(phenes_of(sorted@).to_multiset() == phenes_of(old_sorted).to_multiset().insert(
                pm,
            ));
            assert(phenes_of(remaining@).to_multiset() == phenes_of(old_rem).to_multiset().remove(
                pm,
            ));
            assert(phenes_of(sorted@).to_multiset().add(phenes_of(remaining@).to_multiset())
                =~= phenes_of(population@).to_multiset());
            assert forall|k: int|
                0 <= k < remaining@.len() implies remaining@[k] == old_rem[k] || remaining@[k]
                == old_rem[last] by {}
            assert forall|k: int|
                0 <= k < remaining@.len() implies member_of(
                #[trigger] remaining@[k],
                population@,
            ) by {
                if remaining@[k] == old_rem[k] {
                    assert(member_of(old_rem[k], population@));
                } else {
                    assert(member_of(old_rem[last], population@));
                }
            }
            assert forall|k: int|
                0 <= k < sorted@.len() implies member_of(#[trigger] sorted@[k], population@) by {
                if k < old_sorted.len() {
                    assert(sorted@[k] == old_sorted[k]);
                    assert(member_of(old_sorted[k], population@));
                } else {
                    assert(sorted@[k] == old_rem[m as int]);
                    assert(member_of(old_rem[m as int], population@));
                }
            }
            assert forall|s: int, t: int|
                0 <= s < sorted@.len() && 0 <= t < remaining@.len() implies sorted@[
                    s
                ].spec_phene() <= remaining@[t].spec_phene() by {
                assert(old_rem[m as int].spec_phene() <= old_rem[t].spec_phene());
                assert(old_rem[m as int].spec_phene() <= old_rem[last].spec_phene());
                if s < old_sorted.len() {
                    assert(old_sorted[s].spec_phene() <= old_rem[t].spec_phene());
                    assert(old_sorted[s].spec_phene() <= old_rem[last].spec_phene());
                }
            }
            assert forall|a: int, b: int|
                0 <= a <= b < sorted@.len() implies sorted@[a].spec_phene() <= sorted@[
                    b
                ].spec_phene() by {
                if b == old_sorted.len() && a < b {
                    assert(old_sorted[a].spec_phene() <= old_rem[m as int].spec_phene());
                }
            }
        }
    }
    sorted
}

/// Rank-based roulette selection. An empty population yields an empty
/// pool; a singleton population yields exactly that one chromosome,
/// whatever the target; otherwise `min(target_size, n)` draws are made
/// with replacement, each uniform over the cumulative rank weights, so
/// that the fittest position carries the largest weight.
pub fn select_ranking(population: &[Chromo], target_size: usize) -> (pool: Vec<Chromo>)
    requires
        rank_total(population@.len() as int) <= usize::MAX,
    ensures
        population@.len() == 0 ==> pool@.len() == 0,
        population@.len() == 1 ==> pool@.len() == 1,
        population@.len() >= 2 ==> pool@.len() == (if target_size < population@.len() {
            target_size as int
        } else {
            population@.len() as int
        }),
        drawn_from(pool@, population@),
{
    if population.len() == 0 {
        return Vec::new();
    }
    if population.len() == 1 {
        let mut pool: Vec<Chromo> = Vec::new();
        pool.push(population[0].clone());
        proof {
            assert(chromo_eqv(pool@[0], population@[0]));
            assert(member_of(pool@[0], population@));
        }
        return pool;
    }

    let sorted = sort_by_phene(population);
    let n = population.len();

    let mut total: usize = 0;
    let mut t: usize = 0;
    while t < n
        invariant
            t <= n,
            n == population@.len(),
            rank_total(n as int) <= usize::MAX,
            total == rank_total(t as int),
        decreases n - t,
    {
        proof {
            lemma_rank_total_monotonic(t + 1, n as int);
        }
        total = total + (t + 1);
        t = t + 1;
    }

    let draws = if target_size < n {
        target_size
    } else {
        n
    };
    let mut rng = rand::thread_rng();
    let mut pool: Vec<Chromo> = Vec::new();
    let mut d: usize = 0;
    proof {
        lemma_rank_cum_bounds(n as int);
        assert(rank_total(0int) == 0);
        assert(rank_total(1int) == 1);
        lemma_rank_total_monotonic(1, n as int);
    }
    while d < draws
        invariant
            d <= draws,
            n == population@.len() >= 2,
            sorted@.len() == n,
            drawn_from(sorted@, population@),
            total == rank_total(n as int) <= usize::MAX,
            total >= 1,
            pool@.len() == d,
            drawn_from(pool@, population@),
            forall|p: int| 0 <= p <= n ==> 0 <= #[trigger] rank_cum(n as int, p) <= rank_total(
                n as int,
            ),
            rank_cum(n as int, n as int) == rank_total(n as int),
        decreases draws - d,
    {
        let sel = rand_index(&mut rng, total);
        let mut q: usize = 0;
        let mut low: usize = 0;
        while sel - low >= n - q
            invariant
                q < n,
                n == population@.len(),
                low == rank_cum(n as int, q as int),
                low <= sel < rank_total(n as int),
                forall|p: int| 0 <= p <= n ==> 0 <= #[trigger] rank_cum(n as int, p)
                    <= rank_total(n as int),
                rank_cum(n as int, n as int) == rank_total(n as int),
            decreases n - q,
        {
            low = low + (n - q);
            q = q + 1;
            proof {
                assert(low == rank_cum(n as int, q as int));
                if q == n {
                    assert(false);
                }
            }
        }
        let chosen = sorted[q].clone();
        let ghost old_pool = pool@;
        proof {
            assert(member_of(sorted@[q as int], population@));
            let j = choose|j: int|
                0 <= j < population@.len() && chromo_eqv(sorted@[q as int], population@[j]);
            assert(chromo_eqv(chosen, population@[j]));
            assert(member_of(chosen, population@));
        }
        pool.push(chosen);
        proof {
            assert forall|k: int| 0 <= k < pool@.len() implies member_of(
                #[trigger] pool@[k],
                population@,
            ) by {
                if k < old_pool.len() {
                    assert(pool@[k] == old_pool[k]);
                    assert(member_of(old_pool[k], population@));
                }
            }
        }
        d = d + 1;
    }
    pool
}

/// Elitist truncation. An empty population yields an empty list; a
/// singleton yields that one chromosome, whatever the target; otherwise
/// the `min(target_size, n)` chromosomes of lowest color count survive:
/// the survivors' fitness list is exactly the ascending prefix of the
/// population's sorted fitness list.
pub fn select_elite(population: &[Chromo], target_size: usize) -> (survivors: Vec<Chromo>)
    ensures
        population@.len() == 0 ==> survivors@.len() == 0,
        population@.len() == 1 ==> survivors@.len() == 1,
        population@.len() >= 2 ==> survivors@.len() == (if target_size < population@.len() {
            target_size as int
        } else {
            population@.len() as int
        }),
        drawn_from(survivors@, population@),
        sorted_by_phene(survivors@),
        population@.len() >= 2 ==> phenes_of(survivors@) == sorted_phenes(population@).take(
            survivors@.len() as int,
        ),
{
    if population.len() == 0 {
        return Vec::new();
    }
    if population.len() == 1 {
        let mut survivors: Vec<Chromo> = Vec::new();
        survivors.push(population[0].clone());
        proof {
            assert(chromo_eqv(survivors@[0], population@[0]));
            assert(member_of(survivors@[0], population@));
        }
        return survivors;
    }

    let mut sorted = sort_by_phene(population);
    let k = if target_size < population.len() {
        target_size
    } else {
        population.len()
    };
    proof {
        let leq = |a: u16, b: u16| a <= b;
        assert(vstd::relations::sorted_by(phenes_of(sorted@), leq));
        assert(vstd::relations::total_ordering(leq)) by {
            assert(vstd::relations::reflexive(leq));
            assert(vstd::relations::transitive(leq));
            assert(vstd::relations::antisymmetric(leq));
            assert(vstd::relations::strongly_connected(leq));
        }
        phenes_of(population@).lemma_sort_by_ensures(leq);
        vstd::seq_lib::lemma_sorted_unique(phenes_of(sorted@), sorted_phenes(population@), leq);
    }
    let ghost whole = sorted@;
    sorted.truncate(k);
    proof {
        assert(sorted@ == whole.take(k as int));
        assert(phenes_of(sorted@) =~= phenes_of(whole).take(k as int));
        assert forall|t: int| 0 <= t < sorted@.len() implies member_of(
            #[trigger] sorted@[t],
            population@,
        ) by {
            assert(sorted@[t] == whole[t]);
            assert(member_of(whole[t], population@));
        }
        assert forall|a: int, b: int|
            0 <= a <= b < sorted@.len() implies sorted@[a].spec_phene() <= sorted@[
                b
            ].spec_phene() by {
            assert(sorted@[a] == whole[a] && sorted@[b] == whole[b]);
            assert(whole[a].spec_phene() <= whole[b].spec_phene());
        }
    }
    sorted
}

/// Retained fitness never exceeds discarded fitness: after elitist
/// truncation to `k` survivors, every surviving color count is at most
/// every color count at or past position `k` of the sorted fitness list.
pub proof fn lemma_elite_retained_bound(pop: Seq<Chromo>, survivors: Seq<Chromo>, k: int)
    requires
        0 <= k <= pop.len(),
        phenes_of(survivors) == sorted_phenes(pop).take(k),
    ensures
        forall|a: int, b: int|
            0 <= a < k && k <= b < pop.len() ==> phenes_of(survivors)[a] <= sorted_phenes(pop)[b],
{
    let leq = |a: u16, b: u16| a <= b;
    phenes_of(pop).lemma_sort_by_ensures(leq);
    assert(sorted_phenes(pop).len() == pop.len()) by {
        broadcast use vstd::seq_lib::group_to_multiset_ensures;

        assert(phenes_of(pop).to_multiset().len() == phenes_of(pop).len());
        assert(sorted_phenes(pop).to_multiset().len() == sorted_phenes(pop).len());
    }
    assert forall|a: int, b: int|
        0 <= a < k && k <= b < pop.len() implies phenes_of(survivors)[a] <= sorted_phenes(
        pop,
    )[b] by {
        assert(leq(sorted_phenes(pop)[a], sorted_phenes(pop)[b]));
    }
}

/// Repair weight of an ordered pair of vertex positions: the two degrees
/// plus a penalty of half the vertex count when the pair is adjacent.
pub open spec fn spec_weight(g: VarLifetimeGraph, i: int, j: int) -> int {
    g.node(i).deg + g.node(j).deg + (if g.adj_at(i, g.ids()[j]) {
        g.n() as int / 2
    } else {
        0
    })
}

/// Repair weight of an ordered pair of distinct vertex identifiers.
pub open spec fn spec_weight_ids(g: VarLifetimeGraph, a: VarId, b: VarId) -> int {
    spec_weight(g, g.ids().index_of(a), g.ids().index_of(b))
}

/// The entry pairs two distinct vertices with their repair weight.
pub open spec fn entry_ok(g: VarLifetimeGraph, e: ((VarId, VarId), u32)) -> bool {
    exists|i: int, j: int|
        #![trigger g.ids()[i], g.ids()[j]]
        0 <= i < g.n() && 0 <= j < g.n() && i != j && e.0.0 == g.ids()[i] && e.0.1 == g.ids()[j]
            && e.1 == spec_weight(g, i, j)
}

/// Some entry carries this key.
pub open spec fn has_key(entries: Seq<((VarId, VarId), u32)>, key: (VarId, VarId)) -> bool {
    exists|e: int| 0 <= e < entries.len() && (#[trigger] entries[e]).0 == key
}

/// Appending an entry keeps every key already present.
proof fn lemma_has_key_push(entries: Seq<((VarId, VarId), u32)>, x: ((VarId, VarId), u32))
    ensures
        forall|key: (VarId, VarId)|
            #[trigger] has_key(entries, key) ==> has_key(entries.push(x), key),
        has_key(entries.push(x), x.0),
{
    assert forall|key: (VarId, VarId)| #[trigger] has_key(entries, key) implies has_key(
        entries.push(x),
        key,
    ) by {
        let e = choose|e: int| 0 <= e < entries.len() && (#[trigger] entries[e]).0 == key;
        assert(entries.push(x)[e].0 == key);
    }
    assert(entries.push(x)[entries.len() as int].0 == x.0);
}

/// The evaluation matrix: one repair weight for every ordered pair of
/// distinct vertices. Built once from the graph, read-only afterwards,
/// and used only as the crossover repair tie-break.
pub struct EvalMatrix {
    entries: Vec<((VarId, VarId), u32)>,
}

impl EvalMatrix {
    /// The stored entries.
    pub closed spec fn spec_entries(self) -> Seq<((VarId, VarId), u32)> {
        self.entries@
    }

    /// Every entry carries the weight of its pair, and every ordered pair
    /// of distinct vertices has an entry.
    pub open spec fn wf(self, g: VarLifetimeGraph) -> bool {
        &&& forall|e: int|
            0 <= e < self.spec_entries().len() ==> entry_ok(g, #[trigger] self.spec_entries()[e])
        &&& forall|i: int, j: int|
            #![trigger g.ids()[i], g.ids()[j]]
            0 <= i < g.n() && 0 <= j < g.n() && i != j ==> has_key(
                self.spec_entries(),
                (g.ids()[i], g.ids()[j]),
            )
    }

    /// Builds the matrix by a pairwise scan of the graph's nodes.
    pub fn new(graph: &VarLifetimeGraph) -> (r: EvalMatrix)
        requires
            graph.wf(),
        ensures
            r.wf(*graph),
    {
        let n = graph.nodes.len();
        let half: u32 = (n / 2) as u32;
        let mut entries: Vec<((VarId, VarId), u32)> = Vec::new();
        let mut i: usize = 0;
        while i < n
            invariant
                graph.wf(),
                n == graph.n(),
                i <= n,
                half == graph.n() as int / 2,
                forall|e: int| 0 <= e < entries@.len() ==> entry_ok(*graph, #[trigger] entries@[e]),
                forall|ip: int, jp: int|
                    #![trigger graph.ids()[ip], graph.ids()[jp]]
                    0 <= ip < i && 0 <= jp < n && ip != jp ==> has_key(
                        entries@,
                        (graph.ids()[ip], graph.ids()[jp]),
                    ),
            decreases n - i,
        {
            let mut j: usize = 0;
            while j < n
                invariant
                    graph.wf(),
                    n == graph.n(),
                    i < n,
                    j <= n,
                    half == graph.n() as int / 2,
                    forall|e: int|
                        0 <= e < entries@.len() ==> entry_ok(*graph, #[trigger] entries@[e]),
                    forall|ip: int, jp: int|
                        #![trigger graph.ids()[ip], graph.ids()[jp]]
                        0 <= ip < i && 0 <= jp < n && ip != jp ==> has_key(
                            entries@,
                            (graph.ids()[ip], graph.ids()[jp]),
                        ),
                    forall|jp: int|
                        #![trigger graph.ids()[jp]]
                        0 <= jp < j && jp != i ==> has_key(
                            entries@,
                            (graph.ids()[i as int], graph.ids()[jp]),
                        ),
                decreases n - j,
            {
                if j != i {
                    let a = graph.nodes[i].0;
                    let b = graph.nodes[j].0;
                    let adj = graph.nodes[i].1.is_adjacent(b);
                    let w: u32 = graph.nodes[i].1.deg as u32 + graph.nodes[j].1.deg as u32 + (
                    if adj {
                        half
                    } else {
                        0
                    });
                    let ghost old_entries = entries@;
                    entries.push(((a, b), w));
                    proof {
                        lemma_has_key_push(old_entries, ((a, b), w));
                        assert(a == graph.ids()[i as int] && b == graph.ids()[j as int]);
                        assert(w == spec_weight(*graph, i as int, j as int));
                        assert(entry_ok(*graph, entries@[old_entries.len() as int]));
                        assert forall|e: int|
                            0 <= e < entries@.len() implies entry_ok(
                            *graph,
                            #[trigger] entries@[e],
                        ) by {
                            if e < old_entries.len() {
                                assert(entries@[e] == old_entries[e]);
                            }
                        }
                    }
                }
                j = j + 1;
            }
            i = i + 1;
        }
        EvalMatrix { entries }
    }

    /// Weight lookup for an ordered pair of distinct vertices.
    pub fn lookup(&self, graph: &VarLifetimeGraph, a: VarId, b: VarId) -> (w: u32)
        requires
            graph.wf(),
            self.wf(*graph),
            graph.ids().contains(a),
            graph.ids().contains(b),
            a != b,
        ensures
            w == spec_weight_ids(*graph, a, b),
    {
        let ghost ia = graph.ids().index_of(a);
        let ghost ib = graph.ids().index_of(b);
        proof {
            assert(0 <= ia < graph.ids().len() && graph.ids()[ia] == a) by {
                assert(exists|m: int| 0 <= m < graph.ids().len() && graph.ids()[m] == a);
            }
            assert(0 <= ib < graph.ids().len() && graph.ids()[ib] == b) by {
                assert(exists|m: int| 0 <= m < graph.ids().len() && graph.ids()[m] == b);
            }
            assert(ia != ib);
            assert(has_key(self.spec_entries(), (a, b)));
        }
        let m = self.entries.len();
        let mut e: usize = 0;
        while e < m
            invariant
                m == self.spec_entries().len(),
                e <= m,
                graph.ids().no_duplicates(),
                0 <= ia < graph.ids().len() && graph.ids()[ia] == a,
                0 <= ib < graph.ids().len() && graph.ids()[ib] == b,
                graph.ids().len() == graph.n(),
                has_key(self.spec_entries(), (a, b)),
                forall|e2: int|
                    0 <= e2 < m ==> entry_ok(*graph, #[trigger] self.spec_entries()[e2]),
                forall|t: int| 0 <= t < e ==> (#[trigger] self.spec_entries()[t]).0 != (a, b),
            decreases m - e,
        {
            let key = self.entries[e].0;
            if key.0 == a && key.1 == b {
                let w = self.entries[e].1;
                proof {
                    let ghost ent = self.spec_entries()[e as int];
                    assert(entry_ok(*graph, ent));
                    let (i, j): (int, int) = choose|i: int, j: int|
                        #![trigger graph.ids()[i], graph.ids()[j]]
                        0 <= i < graph.n() && 0 <= j < graph.n() && i != j && ent.0.0
                            == graph.ids()[i] && ent.0.1 == graph.ids()[j] && ent.1 == spec_weight(
                            *graph,
                            i,
                            j,
                        );
                    assert(graph.ids()[i] == a && graph.ids()[j] == b);
                    assert(i == ia && j == ib);
                }
                return w;
            }
            e = e + 1;
        }
        proof {
            let we = choose|we: int|
                0 <= we < self.spec_entries().len() && (#[trigger] self.spec_entries()[we]).0 == (
                a,
                b,
            );
            assert(false);
        }
        unreached()
    }
}

/// Identifiers at positions `k` and beyond of the recessive gene that also
/// lie in the dominant tail: during crossover these pass through unchanged.
pub open spec fn pending(rec: Seq<VarId>, dom_tail: Set<VarId>, k: int) -> Set<VarId> {
    Set::new(
        |id: VarId|
            dom_tail.contains(id) && exists|m: int|
                k <= m < rec.len() && #[trigger] rec[m] == id,
    )
}

/// Past the end of the gene nothing is pending.
proof fn lemma_pending_empty(rec: Seq<VarId>, dom_tail: Set<VarId>)
    ensures
        pending(rec, dom_tail, rec.len() as int) == Set::<VarId>::empty(),
{
    assert(pending(rec, dom_tail, rec.len() as int) =~= Set::<VarId>::empty());
}

/// Stepping past position `k` removes `rec[k]` from the pending set when it
/// was pending, and changes nothing otherwise.
proof fn lemma_pending_step(rec: Seq<VarId>, dom_tail: Set<VarId>, k: int)
    requires
        0 <= k < rec.len(),
        rec.no_duplicates(),
    ensures
        dom_tail.contains(rec[k]) ==> pending(rec, dom_tail, k) == pending(
            rec,
            dom_tail,
            k + 1,
        ).insert(rec[k]),
        !pending(rec, dom_tail, k + 1).contains(rec[k]),
        !dom_tail.contains(rec[k]) ==> pending(rec, dom_tail, k) == pending(rec, dom_tail, k + 1),
{
    broadcast use vstd::set::group_set_axioms;

    assert(!pending(rec, dom_tail, k + 1).contains(rec[k])) by {
        if pending(rec, dom_tail, k + 1).contains(rec[k]) {
            let m = choose|m: int| k + 1 <= m < rec.len() && #[trigger] rec[m] == rec[k];
            assert(false);
        }
    }
    if dom_tail.contains(rec[k]) {
        assert forall|id: VarId| #![auto] pending(rec, dom_tail, k).contains(id) <==> pending(
            rec,
            dom_tail,
            k + 1,
        ).insert(rec[k]).contains(id) by {
            if pending(rec, dom_tail, k).contains(id) {
                let m = choose|m: int| k <= m < rec.len() && #[trigger] rec[m] == id;
                if m == k {
                    assert(id == rec[k]);
                } else {
                    assert(k + 1 <= m < rec.len() && rec[m] == id);
                }
            }
            if pending(rec, dom_tail, k + 1).insert(rec[k]).contains(id) {
                if id == rec[k] {
                    assert(rec[k] == id);
                } else {
                    assert(pending(rec, dom_tail, k + 1).contains(id));
                    let m = choose|m: int| k + 1 <= m < rec.len() && #[trigger] rec[m] == id;
                    assert(k <= m < rec.len() && rec[m] == id);
                }
            }
        }
        assert(pending(rec, dom_tail, k) =~= pending(rec, dom_tail, k + 1).insert(rec[k]));
    } else {
        assert forall|id: VarId| #![auto] pending(rec, dom_tail, k).contains(id) <==> pending(
            rec,
            dom_tail,
            k + 1,
        ).contains(id) by {
            if pending(rec, dom_tail, k).contains(id) {
                let m = choose|m: int| k <= m < rec.len() && #[trigger] rec[m] == id;
                assert(m != k);
            }
            if pending(rec, dom_tail, k + 1).contains(id) {
                let m = choose|m: int| k + 1 <= m < rec.len() && #[trigger] rec[m] == id;
                assert(k <= m < rec.len() && rec[m] == id);
            }
        }
        assert(pending(rec, dom_tail, k) =~= pending(rec, dom_tail, k + 1));
    }
}

/// The pending set is finite and no larger than the positions left.
proof fn lemma_pending_card(rec: Seq<VarId>, dom_tail: Set<VarId>, k: int)
    requires
        0 <= k <= rec.len(),
        rec.no_duplicates(),
    ensures
        pending(rec, dom_tail, k).finite(),
        pending(rec, dom_tail, k).len() <= rec.len() - k,
    decreases rec.len() - k,
{
    broadcast use vstd::set::group_set_axioms;

    if k == rec.len() {
        lemma_pending_empty(rec, dom_tail);
    } else {
        lemma_pending_card(rec, dom_tail, k + 1);
        lemma_pending_step(rec, dom_tail, k);
    }
}

/// Whether the identifier occurs in `v` at or after position `from`.
fn range_contains(v: &[VarId], from: usize, id: VarId) -> (r: bool)
    requires
        from <= v@.len(),
    ensures
        r == v@.skip(from as int).contains(id),
{
    let mut m: usize = from;
    while m < v.len()
        invariant
            from <= m <= v@.len(),
            forall|t: int| from <= t < m ==> v@[t] != id,
        decreases v@.len() - m,
    {
        if v[m] == id {
            proof {
                assert(v@.skip(from as int)[m - from] == id);
            }
            return true;
        }
        m = m + 1;
    }
    proof {
        if v@.skip(from as int).contains(id) {
            let t = choose|t: int|
                0 <= t < v@.skip(from as int).len() && v@.skip(from as int)[t] == id;
            assert(v@[from + t] == id);
            assert(false);
        }
    }
    false
}

/// Position in `pool` of an identifier of minimal degree: the cold-start
/// tie-break of the crossover repair.
fn min_deg_index(pool: &Vec<VarId>, graph: &VarLifetimeGraph) -> (r: usize)
    requires
        graph.wf(),
        pool@.len() > 0,
        forall|t: int| 0 <= t < pool@.len() ==> graph.ids().contains(#[trigger] pool@[t]),
    ensures
        r < pool@.len(),
        forall|t: int|
            0 <= t < pool@.len() ==> graph.deg_of(pool@[r as int]) <= graph.deg_of(
                #[trigger] pool@[t],
            ),
{
    let mut r: usize = 0;
    let mut best: u16 = graph.degree_of(pool[0]);
    let mut t: usize = 1;
    while t < pool.len()
        invariant
            graph.wf(),
            r < t <= pool@.len() || (r == 0 && t <= pool@.len()),
            r < pool@.len(),
            forall|s: int| 0 <= s < pool@.len() ==> graph.ids().contains(#[trigger] pool@[s]),
            best == graph.deg_of(pool@[r as int]),
            forall|s: int| 0 <= s < t ==> best <= graph.deg_of(#[trigger] pool@[s]),
        decreases pool@.len() - t,
    {
        let d = graph.degree_of(pool[t]);
        if d < best {
            r = t;
            best = d;
        }
        t = t + 1;
    }
    r
}

/// Position in `pool` of an identifier of minimal repair weight from
/// `prev`: the greedy nearest-neighbour step of the crossover repair.
fn min_weight_index(
    pool: &Vec<VarId>,
    prev: VarId,
    graph: &VarLifetimeGraph,
    eval_matrix: &EvalMatrix,
) -> (r: usize)
    requires
        graph.wf(),
        eval_matrix.wf(*graph),
        pool@.len() > 0,
        graph.ids().contains(prev),
        forall|t: int|
            0 <= t < pool@.len() ==> graph.ids().contains(#[trigger] pool@[t]) && pool@[t] != prev,
    ensures
        r < pool@.len(),
        forall|t: int|
            0 <= t < pool@.len() ==> spec_weight_ids(*graph, prev, pool@[r as int])
                <= spec_weight_ids(*graph, prev, #[trigger] pool@[t]),
{
    let mut r: usize = 0;
    let mut best: u32 = eval_matrix.lookup(graph, prev, pool[0]);
    let mut t: usize = 1;
    while t < pool.len()
        invariant
            graph.wf(),
            eval_matrix.wf(*graph),
            graph.ids().contains(prev),
            r < t <= pool@.len() || (r == 0 && t <= pool@.len()),
            r < pool@.len(),
            forall|s: int|
                0 <= s < pool@.len() ==> graph.ids().contains(#[trigger] pool@[s]) && pool@[s]
                    != prev,
            best == spec_weight_ids(*graph, prev, pool@[r as int]),
            forall|s: int|
                0 <= s < t ==> best <= spec_weight_ids(*graph, prev, #[trigger] pool@[s]),
        decreases pool@.len() - t,
    {
        let w = eval_matrix.lookup(graph, prev, pool[t]);
        if w < best {
            r = t;
            best = w;
        }
        t = t + 1;
    }
    r
}

/// Removing one position of a duplicate-free sequence removes exactly that
/// element from its set.
proof fn lemma_remove_unique_to_set(s: Seq<VarId>, i: int)
    requires
        0 <= i < s.len(),
        s.no_duplicates(),
    ensures
        s.remove(i).to_set() == s.to_set().remove(s[i]),
        s.remove(i).no_duplicates(),
{
    broadcast use vstd::set::group_set_axioms;

    let r = s.remove(i);
    assert forall|x: VarId| #![auto] r.to_set().contains(x) <==> s.to_set().remove(s[i]).contains(
        x,
    ) by {
        if r.to_set().contains(x) {
            let t = choose|t: int| 0 <= t < r.len() && r[t] == x;
            if t < i {
                assert(s[t] == x);
            } else {
                assert(s[t + 1] == x);
            }
            assert(x != s[i]);
        }
        if s.to_set().remove(s[i]).contains(x) {
            let t = choose|t: int| 0 <= t < s.len() && s[t] == x;
            assert(t != i);
            if t < i {
                assert(r[t] == x);
            } else {
                assert(r[t - 1] == x);
            }
            assert(r.contains(x));
        }
    }
    assert(r.to_set() =~= s.to_set().remove(s[i]));
    assert forall|a: int, b: int| 0 <= a < b < r.len() implies r[a] != r[b] by {
        if b < i {
            assert(r[a] == s[a] && r[b] == s[b]);
        } else if a < i {
            assert(r[a] == s[a] && r[b] == s[b + 1]);
        } else {
            assert(r[a] == s[a + 1] && r[b] == s[b + 1]);
        }
    }
}

/// Identifiers consumed by repair so far: the child's entries at the
/// repaired positions before `m` (those whose recessive id lies outside
/// the dominant tail `dom_tail`).
pub open spec fn repaired_before(
    dom_tail: Set<VarId>,
    rec: Seq<VarId>,
    child: Seq<VarId>,
    p: int,
    m: int,
) -> Set<VarId> {
    Set::new(
        |id: VarId|
            exists|t: int|
                #![trigger child[t]]
                p <= t < m && !dom_tail.contains(rec[t]) && child[t] == id,
    )
}

/// The repair pool standing before position `m`: the identifiers of the
/// dominant tail absent from the recessive tail and not yet consumed by
/// repair.
pub open spec fn repair_pool(
    dom: Seq<VarId>,
    rec: Seq<VarId>,
    child: Seq<VarId>,
    p: int,
    m: int,
) -> Set<VarId> {
    dom.skip(p).to_set().difference(rec.skip(p).to_set()).difference(
        repaired_before(dom.skip(p).to_set(), rec, child, p, m),
    )
}

/// No tail position before `m` needed repair: every recessive entry in
/// `[p, m)` lies in the dominant tail. Position `m` is then the first
/// unresolved position of the whole child.
pub open spec fn is_first_repair(dom_tail: Set<VarId>, rec: Seq<VarId>, p: int, m: int) -> bool {
    forall|t: int| p <= t < m ==> dom_tail.contains(#[trigger] rec[t])
}

/// The repaired entry at position `m` is the greedy choice from its pool:
/// of minimal degree at the first unresolved position of the child (the
/// cold start), else of minimal repair weight from the previous entry.
pub open spec fn greedy_repair_at(
    g: VarLifetimeGraph,
    dom: Seq<VarId>,
    rec: Seq<VarId>,
    child: Seq<VarId>,
    p: int,
    m: int,
) -> bool {
    &&& repair_pool(dom, rec, child, p, m).contains(child[m])
    &&& is_first_repair(dom.skip(p).to_set(), rec, p, m) ==> (forall|cand: VarId|
        #[trigger] repair_pool(dom, rec, child, p, m).contains(cand) ==> g.deg_of(child[m])
            <= g.deg_of(cand))
    &&& !is_first_repair(dom.skip(p).to_set(), rec, p, m) ==> (forall|cand: VarId|
        #[trigger] repair_pool(dom, rec, child, p, m).contains(cand) ==> spec_weight_ids(
            g,
            child[m - 1],
            child[m],
        ) <= spec_weight_ids(g, child[m - 1], cand))
}

/// The deterministic order-crossover child of `dom` and `rec` at cross
/// point `p`: a permutation of the vertex set whose head is the dominant
/// head verbatim; every shared tail identifier passes through in place;
/// every other tail position is repaired greedily from the pool.
pub open spec fn crossover_child(
    g: VarLifetimeGraph,
    dom: Seq<VarId>,
    rec: Seq<VarId>,
    child: Seq<VarId>,
    p: int,
) -> bool {
    &&& valid_gene(g, child)
    &&& child.len() == dom.len()
    &&& child.take(p) == dom.take(p)
    &&& forall|m: int|
        #![trigger rec[m]]
        p <= m < child.len() && dom.skip(p).to_set().contains(rec[m]) ==> child[m] == rec[m]
    &&& forall|m: int|
        #![trigger rec[m]]
        p <= m < child.len() && !dom.skip(p).to_set().contains(rec[m]) ==> dom.skip(
            p,
        ).to_set().contains(child[m]) && !rec.skip(p).to_set().contains(child[m])
    &&& forall|m: int|
        #![trigger rec[m]]
        p <= m < child.len() && !dom.skip(p).to_set().contains(rec[m]) ==> greedy_repair_at(
            g,
            dom,
            rec,
            child,
            p,
            m,
        )
}

/// The pool before position `m` reads only child entries before `m`.
proof fn lemma_repair_pool_prefix(
    dom: Seq<VarId>,
    rec: Seq<VarId>,
    c1: Seq<VarId>,
    c2: Seq<VarId>,
    p: int,
    m: int,
)
    requires
        forall|t: int| p <= t < m ==> c1[t] == c2[t],
    ensures
        repair_pool(dom, rec, c1, p, m) == repair_pool(dom, rec, c2, p, m),
{
    broadcast use vstd::set::group_set_axioms;

    let dt = dom.skip(p).to_set();
    assert forall|id: VarId| #![auto] repaired_before(dt, rec, c1, p, m).contains(id)
        <==> repaired_before(dt, rec, c2, p, m).contains(id) by {
        if repaired_before(dt, rec, c1, p, m).contains(id) {
            let t = choose|t: int|
                #![trigger c1[t]]
                p <= t < m && !dt.contains(rec[t]) && c1[t] == id;
            assert(c2[t] == id);
        }
        if repaired_before(dt, rec, c2, p, m).contains(id) {
            let t = choose|t: int|
                #![trigger c2[t]]
                p <= t < m && !dt.contains(rec[t]) && c2[t] == id;
            assert(c1[t] == id);
        }
    }
    assert(repaired_before(dt, rec, c1, p, m) =~= repaired_before(dt, rec, c2, p, m));
    assert(repair_pool(dom, rec, c1, p, m) =~= repair_pool(dom, rec, c2, p, m));
}

/// The greedy property at position `m` reads only child entries up to `m`.
proof fn lemma_greedy_prefix(
    g: VarLifetimeGraph,
    dom: Seq<VarId>,
    rec: Seq<VarId>,
    c1: Seq<VarId>,
    c2: Seq<VarId>,
    p: int,
    m: int,
)
    requires
        0 <= p,
        0 <= m,
        forall|t: int| 0 <= t <= m ==> c1[t] == c2[t],
        greedy_repair_at(g, dom, rec, c1, p, m),
    ensures
        greedy_repair_at(g, dom, rec, c2, p, m),
{
    lemma_repair_pool_prefix(dom, rec, c1, c2, p, m);
    assert(c2[m] == c1[m]);
    if is_first_repair(dom.skip(p).to_set(), rec, p, m) {
        assert forall|cand: VarId|
            #[trigger] repair_pool(dom, rec, c2, p, m).contains(cand) implies g.deg_of(c2[m])
            <= g.deg_of(cand) by {
            assert(repair_pool(dom, rec, c1, p, m).contains(cand));
        }
    } else {
        let t = choose|t: int| p <= t < m && !dom.skip(p).to_set().contains(#[trigger] rec[t]);
        assert(m >= 1);
        assert(c2[m - 1] == c1[m - 1]);
        assert forall|cand: VarId|
            #[trigger] repair_pool(dom, rec, c2, p, m).contains(cand) implies spec_weight_ids(
            g,
            c2[m - 1],
            c2[m],
        ) <= spec_weight_ids(g, c2[m - 1], cand) by {
            assert(repair_pool(dom, rec, c1, p, m).contains(cand));
        }
    }
}

/// Order crossover with conflict repair, one child, deterministic once the
/// cross point is fixed. The child takes the dominant head verbatim; along
/// the tail it keeps every recessive entry that also lies in the dominant
/// tail, and fills the remaining positions from the identifiers found only
/// in the dominant tail, chosen greedily: smallest degree at the first
/// unresolved position of the child (the cold start), then smallest repair
/// weight from the previous entry at every later one.
pub fn cross_genes(
    dominant: &Chromo,
    recessive: &Chromo,
    cross_point: usize,
    graph: &VarLifetimeGraph,
    eval_matrix: &EvalMatrix,
) -> (child: Vec<VarId>)
    requires
        graph.wf(),
        dominant.wf(),
        recessive.wf(),
        dominant.spec_graph() == *graph,
        recessive.spec_graph() == *graph,
        eval_matrix.wf(*graph),
        cross_point < dominant.spec_gene().len(),
    ensures
        crossover_child(
            *graph,
            dominant.spec_gene(),
            recessive.spec_gene(),
            child@,
            cross_point as int,
        ),
{
    proof {
        lemma_chromo_wf(*dominant);
        lemma_chromo_wf(*recessive);
    }
    let gene_dom = dominant.gene();
    let gene_rec = recessive.gene();
    let n = gene_dom.len();
    let p = cross_point;
    let ghost dom = dominant.spec_gene();
    let ghost rec = recessive.spec_gene();
    let ghost dom_s = dom.to_set();
    let ghost dom_tail = dom.skip(p as int).to_set();
    let ghost rec_tail = rec.skip(p as int).to_set();

    // The dominant head, verbatim.
    let mut child: Vec<VarId> = Vec::new();
    let mut k: usize = 0;
    while k < p
        invariant
            k <= p < n,
            n == dom.len(),
            gene_dom@ == dom,
            child@ == dom.take(k as int),
        decreases p - k,
    {
        child.push(gene_dom[k]);
        proof {
            assert(child@ =~= dom.take(k + 1));
        }
        k = k + 1;
    }

    // Dominant-tail identifiers absent from the recessive tail.
    let mut diff: Vec<VarId> = Vec::new();
    let mut k: usize = p;
    while k < n
        invariant
            p <= k <= n,
            n == dom.len() == rec.len(),
            gene_dom@ == dom,
            gene_rec@ == rec,
            dom.no_duplicates(),
            rec_tail == rec.skip(p as int).to_set(),
            dom_tail == dom.skip(p as int).to_set(),
            diff@.no_duplicates(),
            forall|t: int|
                0 <= t < diff@.len() ==> dom_tail.contains(#[trigger] diff@[t])
                    && !rec_tail.contains(diff@[t]),
            forall|m: int|
                #![trigger dom[m]]
                p <= m < k && !rec_tail.contains(dom[m]) ==> diff@.contains(dom[m]),
            forall|t: int|
                0 <= t < diff@.len() ==> exists|m: int|
                    p <= m < k && #[trigger] diff@[t] == dom[m],
        decreases n - k,
    {
        let id = gene_dom[k];
        let in_rec_tail = range_contains(gene_rec, p, id);
        proof {
            assert(rec_tail.contains(id) == rec.skip(p as int).contains(id));
        }
        if !in_rec_tail {
            proof {
                assert(dom.skip(p as int)[k - p] == id);
                assert(dom_tail.contains(id));
                if diff@.contains(id) {
                    let t = choose|t: int| 0 <= t < diff@.len() && diff@[t] == id;
                    let m = choose|m: int| p <= m < k && diff@[t] == dom[m];
                    assert(dom[m] == dom[k as int]);
                    assert(false);
                }
            }
            let ghost old_diff = diff@;
            diff.push(id);
            proof {
                assert forall|m: int|
                    #![trigger dom[m]]
                    p <= m < k + 1 && !rec_tail.contains(dom[m]) implies diff@.contains(
                    dom[m],
                ) by {
                    if m < k {
                        assert(old_diff.contains(dom[m]));
                        let t = choose|t: int| 0 <= t < old_diff.len() && old_diff[t] == dom[m];
                        assert(diff@[t] == dom[m]);
                    } else {
                        assert(diff@[old_diff.len() as int] == dom[k as int]);
                    }
                }
                assert forall|t: int|
                    0 <= t < diff@.len() implies exists|m: int|
                        p <= m < k + 1 && #[trigger] diff@[t] == dom[m] by {
                    if t < old_diff.len() {
                        assert(diff@[t] == old_diff[t]);
                        let m = choose|m: int| p <= m < k && old_diff[t] == dom[m];
                        assert(p <= m < k + 1 && diff@[t] == dom[m]);
                    } else {
                        assert(diff@[t] == dom[k as int]);
                    }
                }
            }
        }
        k = k + 1;
    }

    // Establish the joint picture before the tail walk: the head, the
    // remaining repair pool and the future pass-through entries partition
    // the vertex set.
    proof {
        broadcast use vstd::set::group_set_axioms;
        broadcast use vstd::seq_lib::seq_to_set_is_finite;

        assert(child@ == dom.take(p as int));
        assert forall|a: int, b: int|
            0 <= a < b < child@.len() implies child@[a] != child@[b] by {
            assert(child@[a] == dom[a] && child@[b] == dom[b]);
        }
        assert forall|t: int| 0 <= t < child@.len() implies graph.ids().contains(
            #[trigger] child@[t],
        ) by {
            assert(child@[t] == dom[t]);
        }
        assert forall|t: int| 0 <= t < diff@.len() implies graph.ids().contains(
            #[trigger] diff@[t],
        ) by {
            let m = choose|m: int| p <= m < n && diff@[t] == dom[m];
            assert(graph.ids().contains(dom[m]));
        }
        // Disjointness of the three parts.
        assert forall|a: int, b: int|
            0 <= a < child@.len() && 0 <= b < diff@.len() implies child@[a] != diff@[b] by {
            let m = choose|m: int| p <= m < n && diff@[b] == dom[m];
            assert(child@[a] == dom[a]);
        }
        assert forall|a: int| 0 <= a < child@.len() implies !pending(
            rec,
            dom_tail,
            p as int,
        ).contains(child@[a]) by {
            if pending(rec, dom_tail, p as int).contains(child@[a]) {
                assert(dom_tail.contains(child@[a]));
                let t = choose|t: int|
                    0 <= t < dom.skip(p as int).len() && dom.skip(p as int)[t] == child@[a];
                assert(dom[p + t] == dom[a]);
                assert(false);
            }
        }
        // The union covers exactly the vertex set of the dominant gene.
        assert forall|x: VarId| #![auto] child@.to_set().union(diff@.to_set()).union(
            pending(rec, dom_tail, p as int),
        ).contains(x) <==> dom_s.contains(x) by {
            if child@.to_set().contains(x) {
                let t = choose|t: int| 0 <= t < child@.len() && child@[t] == x;
                assert(dom[t] == x);
                assert(dom.contains(x));
            }
            if diff@.to_set().contains(x) {
                let t = choose|t: int| 0 <= t < diff@.len() && diff@[t] == x;
                let m = choose|m: int| p <= m < n && diff@[t] == dom[m];
                assert(dom.contains(x));
            }
            if pending(rec, dom_tail, p as int).contains(x) {
                let t = choose|t: int|
                    0 <= t < dom.skip(p as int).len() && dom.skip(p as int)[t] == x;
                assert(dom[p + t] == x);
                assert(dom.contains(x));
            }
            if dom_s.contains(x) {
                let m = choose|m: int| 0 <= m < dom.len() && dom[m] == x;
                if m < p {
                    assert(child@[m] == x);
                    assert(child@.to_set().contains(x));
                } else {
                    assert(dom.skip(p as int)[m - p] == x);
                    assert(dom_tail.contains(x));
                    if rec_tail.contains(x) {
                        let t = choose|t: int|
                            0 <= t < rec.skip(p as int).len() && rec.skip(p as int)[t] == x;
                        assert(rec[p + t] == x);
                        assert(pending(rec, dom_tail, p as int).contains(x));
                    } else {
                        assert(diff@.contains(x));
                        assert(diff@.to_set().contains(x));
                    }
                }
            }
        }
        assert(child@.to_set().union(diff@.to_set()).union(pending(rec, dom_tail, p as int))
            =~= dom_s);
        // Cardinalities: the pool and the pending entries fill the tail.
        dom.unique_seq_to_set();
        child@.unique_seq_to_set();
        diff@.unique_seq_to_set();
        lemma_pending_card(rec, dom_tail, p as int);
        vstd::set_lib::lemma_set_disjoint_lens(child@.to_set(), diff@.to_set());
        vstd::set_lib::lemma_set_disjoint_lens(
            child@.to_set().union(diff@.to_set()),
            pending(rec, dom_tail, p as int),
        );
        assert(child@.to_set().disjoint(diff@.to_set())) by {
            if !child@.to_set().disjoint(diff@.to_set()) {
                let x = choose|x: VarId|
                    child@.to_set().contains(x) && diff@.to_set().contains(x);
                let a = choose|a: int| 0 <= a < child@.len() && child@[a] == x;
                let b = choose|b: int| 0 <= b < diff@.len() && diff@[b] == x;
                assert(false);
            }
        }
        assert(child@.to_set().union(diff@.to_set()).disjoint(
            pending(rec, dom_tail, p as int),
        )) by {
            if !child@.to_set().union(diff@.to_set()).disjoint(pending(rec, dom_tail, p as int)) {
                let x = choose|x: VarId|
                    child@.to_set().union(diff@.to_set()).contains(x) && pending(
                        rec,
                        dom_tail,
                        p as int,
                    ).contains(x);
                if child@.to_set().contains(x) {
                    let a = choose|a: int| 0 <= a < child@.len() && child@[a] == x;
                    assert(!pending(rec, dom_tail, p as int).contains(child@[a]));
                } else {
                    let b = choose|b: int| 0 <= b < diff@.len() && diff@[b] == x;
                    assert(!rec_tail.contains(diff@[b]));
                    let t = choose|t: int|
                        p <= t < rec.len() && #[trigger] rec[t] == x;
                    assert(rec.skip(p as int)[t - p] == x);
                    assert(rec_tail.contains(x));
                    assert(false);
                }
            }
        }
        assert(diff@.len() + pending(rec, dom_tail, p as int).len() == n - p);
        // Before the walk, the pool is exactly the computed difference.
        assert(repaired_before(dom_tail, rec, child@, p as int, p as int)
            =~= Set::<VarId>::empty());
        assert forall|id: VarId| #![auto] diff@.to_set().contains(id) <==> repair_pool(
            dom,
            rec,
            child@,
            p as int,
            p as int,
        ).contains(id) by {
            if diff@.to_set().contains(id) {
                let t = choose|t: int| 0 <= t < diff@.len() && diff@[t] == id;
                assert(dom_tail.contains(diff@[t]) && !rec_tail.contains(diff@[t]));
            }
            if repair_pool(dom, rec, child@, p as int, p as int).contains(id) {
                let t = choose|t: int|
                    0 <= t < dom.skip(p as int).len() && dom.skip(p as int)[t] == id;
                assert(dom[p + t] == id);
                assert(!rec_tail.contains(dom[p + t]));
                assert(diff@.contains(dom[p + t]));
            }
        }
        assert(diff@.to_set() =~= repair_pool(dom, rec, child@, p as int, p as int));
    }

    // Walk the recessive tail: keep shared identifiers, repair the rest.
    let mut cold: bool = true;
    let mut k: usize = p;
    while k < n
        invariant
            p <= k <= n,
            p < n,
            graph.wf(),
            eval_matrix.wf(*graph),
            n == dom.len() == rec.len(),
            n == graph.n(),
            gene_dom@ == dom,
            gene_rec@ == rec,
            dom == dominant.spec_gene(),
            rec == recessive.spec_gene(),
            dom.no_duplicates(),
            rec.no_duplicates(),
            valid_gene(*graph, dom),
            valid_gene(*graph, rec),
            dom_s == dom.to_set(),
            dom_tail == dom.skip(p as int).to_set(),
            rec_tail == rec.skip(p as int).to_set(),
            child@.len() == k,
            child@.no_duplicates(),
            child@.take(p as int) == dom.take(p as int),
            forall|t: int| 0 <= t < k ==> graph.ids().contains(#[trigger] child@[t]),
            forall|m: int|
                #![trigger rec[m]]
                p <= m < k && dom_tail.contains(rec[m]) ==> child@[m] == rec[m],
            forall|m: int|
                #![trigger rec[m]]
                p <= m < k && !dom_tail.contains(rec[m]) ==> dom_tail.contains(child@[m])
                    && !rec_tail.contains(child@[m]),
            diff@.no_duplicates(),
            forall|t: int|
                0 <= t < diff@.len() ==> dom_tail.contains(#[trigger] diff@[t])
                    && !rec_tail.contains(diff@[t]) && graph.ids().contains(diff@[t]),
            forall|a: int, b: int|
                0 <= a < k && 0 <= b < diff@.len() ==> child@[a] != diff@[b],
            forall|a: int|
                0 <= a < k ==> !pending(rec, dom_tail, k as int).contains(#[trigger] child@[a]),
            child@.to_set().union(diff@.to_set()).union(pending(rec, dom_tail, k as int))
                == dom_s,
            pending(rec, dom_tail, k as int).finite(),
            diff@.len() + pending(rec, dom_tail, k as int).len() == n - k,
            diff@.to_set() == repair_pool(dom, rec, child@, p as int, k as int),
            cold == is_first_repair(dom_tail, rec, p as int, k as int),
            forall|m: int|
                #![trigger rec[m]]
                p <= m < k && !dom_tail.contains(rec[m]) ==> greedy_repair_at(
                    *graph,
                    dom,
                    rec,
                    child@,
                    p as int,
                    m,
                ),
        decreases n - k,
    {
        broadcast use vstd::set::group_set_axioms;

        let rid = gene_rec[k];
        let keep = range_contains(gene_dom, p, rid);
        proof {
            assert(dom_tail.contains(rid) == dom.skip(p as int).contains(rid));
            lemma_pending_step(rec, dom_tail, k as int);
        }
        if keep {
            let ghost old_child = child@;
            proof {
                assert(pending(rec, dom_tail, k as int).contains(rid)) by {
                    assert(k <= k < rec.len() && rec[k as int] == rid);
                }
                assert(!child@.to_set().contains(rid)) by {
                    if child@.to_set().contains(rid) {
                        let a = choose|a: int| 0 <= a < child@.len() && child@[a] == rid;
                        assert(!pending(rec, dom_tail, k as int).contains(child@[a]));
                    }
                }
            }
            child.push(rid);
            proof {
                assert(child@ == old_child.push(rid));
                assert(child@.take(p as int) =~= old_child.take(p as int));
                assert forall|a: int, b: int|
                    0 <= a < b < child@.len() implies child@[a] != child@[b] by {
                    if b < old_child.len() {
                        assert(child@[a] == old_child[a] && child@[b] == old_child[b]);
                    } else {
                        if child@[a] == rid {
                            assert(old_child.to_set().contains(rid));
                        }
                    }
                }
                assert forall|b: int| 0 <= b < diff@.len() implies rid != diff@[b] by {
                    assert(rec.skip(p as int)[k - p] == rid);
                    assert(rec_tail.contains(rid));
                    assert(!rec_tail.contains(diff@[b]));
                }
                assert forall|t: int| 0 <= t < child@.len() implies graph.ids().contains(
                    #[trigger] child@[t],
                ) by {
                    if t < old_child.len() {
                        assert(child@[t] == old_child[t]);
                    } else {
                        assert(child@[t] == rid);
                        let u = choose|u: int|
                            0 <= u < dom.skip(p as int).len() && dom.skip(p as int)[u] == rid;
                        assert(dom[p + u] == rid);
                        assert(graph.ids().contains(dom[p + u]));
                    }
                }
                assert forall|a: int|
                    0 <= a < child@.len() implies !pending(rec, dom_tail, k + 1).contains(
                    #[trigger] child@[a],
                ) by {
                    if a < old_child.len() {
                        assert(child@[a] == old_child[a]);
                        assert(!pending(rec, dom_tail, k as int).contains(old_child[a]));
                        assert(pending(rec, dom_tail, k as int) == pending(
                            rec,
                            dom_tail,
                            k + 1,
                        ).insert(rid));
                    } else {
                        assert(child@[a] == rid);
                        assert(!pending(rec, dom_tail, k + 1).contains(rid));
                    }
                }
                old_child.lemma_push_to_set_commute(rid);
                assert(child@.to_set() =~= old_child.to_set().insert(rid));
                assert(child@.to_set().union(diff@.to_set()).union(
                    pending(rec, dom_tail, k + 1),
                ) =~= old_child.to_set().union(diff@.to_set()).union(
                    pending(rec, dom_tail, k as int),
                ));
                lemma_pending_card(rec, dom_tail, k + 1);
                assert(pending(rec, dom_tail, k as int).len() == pending(
                    rec,
                    dom_tail,
                    k + 1,
                ).len() + 1);
                // A pass-through leaves the repair pool untouched.
                assert(repaired_before(dom_tail, rec, child@, p as int, k + 1)
                    =~= repaired_before(dom_tail, rec, old_child, p as int, k as int)) by {
                    assert forall|x: VarId| #![auto] repaired_before(
                        dom_tail,
                        rec,
                        child@,
                        p as int,
                        k + 1,
                    ).contains(x) <==> repaired_before(
                        dom_tail,
                        rec,
                        old_child,
                        p as int,
                        k as int,
                    ).contains(x) by {
                        if repaired_before(dom_tail, rec, child@, p as int, k + 1).contains(x) {
                            let t = choose|t: int|
                                #![trigger child@[t]]
                                p <= t < k + 1 && !dom_tail.contains(rec[t]) && child@[t] == x;
                            assert(t != k);
                            assert(old_child[t] == x);
                        }
                        if repaired_before(dom_tail, rec, old_child, p as int, k as int).contains(
                            x,
                        ) {
                            let t = choose|t: int|
                                #![trigger old_child[t]]
                                p <= t < k && !dom_tail.contains(rec[t]) && old_child[t] == x;
                            assert(child@[t] == x);
                        }
                    }
                }
                assert(diff@.to_set() == repair_pool(dom, rec, child@, p as int, k + 1));
                assert forall|m: int|
                    #![trigger rec[m]]
                    p <= m < k + 1 && !dom_tail.contains(rec[m]) implies greedy_repair_at(
                    *graph,
                    dom,
                    rec,
                    child@,
                    p as int,
                    m,
                ) by {
                    if m == k {
                        assert(false);
                    }
                    assert(greedy_repair_at(*graph, dom, rec, old_child, p as int, m));
                    lemma_greedy_prefix(*graph, dom, rec, old_child, child@, p as int, m);
                }
                assert(cold == is_first_repair(dom_tail, rec, p as int, k + 1)) by {
                    if cold {
                        assert forall|t: int| p <= t < k + 1 implies dom_tail.contains(
                            #[trigger] rec[t],
                        ) by {
                            if t == k {
                                assert(dom_tail.contains(rid));
                            }
                        }
                    } else {
                        let t = choose|t: int|
                            p <= t < k && !dom_tail.contains(#[trigger] rec[t]);
                        assert(p <= t < k + 1 && !dom_tail.contains(rec[t]));
                    }
                }
            }
        } else {
            proof {
                assert(pending(rec, dom_tail, k as int) == pending(rec, dom_tail, k + 1));
                lemma_pending_card(rec, dom_tail, k + 1);
                assert(diff@.len() >= 1);
            }
            let idx = if cold {
                min_deg_index(&diff, graph)
            } else {
                proof {
                    let t = choose|t: int|
                        p <= t < k && !dom_tail.contains(#[trigger] rec[t]);
                    assert(k >= 1);
                }
                let prev = child[child.len() - 1];
                proof {
                    assert(graph.ids().contains(child@[child@.len() - 1]));
                    assert forall|t: int| 0 <= t < diff@.len() implies #[trigger] diff@[t]
                        != prev by {
                        assert(child@[child@.len() - 1] != diff@[t]);
                    }
                }
                min_weight_index(&diff, prev, graph, eval_matrix)
            };
            let ghost old_child = child@;
            let ghost old_diff = diff@;
            let id = diff.remove(idx);
            child.push(id);
            proof {
                lemma_remove_unique_to_set(old_diff, idx as int);
                assert(child@ == old_child.push(id));
                assert(child@.take(p as int) =~= old_child.take(p as int));
                assert(!old_child.to_set().contains(id)) by {
                    if old_child.to_set().contains(id) {
                        let a = choose|a: int| 0 <= a < old_child.len() && old_child[a] == id;
                        assert(old_child[a] != old_diff[idx as int]);
                    }
                }
                assert forall|a: int, b: int|
                    0 <= a < b < child@.len() implies child@[a] != child@[b] by {
                    if b < old_child.len() {
                        assert(child@[a] == old_child[a] && child@[b] == old_child[b]);
                    } else {
                        if child@[a] == id {
                            assert(old_child.to_set().contains(id));
                        }
                    }
                }
                assert forall|a: int, b: int|
                    0 <= a < child@.len() && 0 <= b < diff@.len() implies child@[a] != diff@[
                    b
                ] by {
                    assert(diff@.to_set().contains(diff@[b]));
                    assert(old_diff.to_set().contains(diff@[b]));
                    let t = choose|t: int| 0 <= t < old_diff.len() && old_diff[t] == diff@[b];
                    if a < old_child.len() {
                        assert(child@[a] == old_child[a]);
                        assert(old_child[a] != old_diff[t]);
                    } else {
                        assert(child@[a] == id);
                        assert(!diff@.to_set().contains(id));
                    }
                }
                assert forall|t: int| 0 <= t < child@.len() implies graph.ids().contains(
                    #[trigger] child@[t],
                ) by {
                    if t < old_child.len() {
                        assert(child@[t] == old_child[t]);
                    } else {
                        assert(child@[t] == id);
                        assert(graph.ids().contains(old_diff[idx as int]));
                    }
                }
                assert(!pending(rec, dom_tail, k + 1).contains(id)) by {
                    if pending(rec, dom_tail, k + 1).contains(id) {
                        let m = choose|m: int|
                            k + 1 <= m < rec.len() && #[trigger] rec[m] == id;
                        assert(rec.skip(p as int)[m - p] == id);
                        assert(rec_tail.contains(id));
                        assert(!rec_tail.contains(old_diff[idx as int]));
                    }
                }
                assert forall|a: int|
                    0 <= a < child@.len() implies !pending(rec, dom_tail, k + 1).contains(
                    #[trigger] child@[a],
                ) by {
                    if a < old_child.len() {
                        assert(child@[a] == old_child[a]);
                        assert(!pending(rec, dom_tail, k as int).contains(old_child[a]));
                    } else {
                        assert(child@[a] == id);
                    }
                }
                old_child.lemma_push_to_set_commute(id);
                assert(child@.to_set() =~= old_child.to_set().insert(id));
                assert(child@.to_set().union(diff@.to_set()).union(
                    pending(rec, dom_tail, k + 1),
                ) =~= old_child.to_set().union(old_diff.to_set()).union(
                    pending(rec, dom_tail, k as int),
                )) by {
                    assert(diff@.to_set() == old_diff.to_set().remove(id));
                    assert(old_diff.to_set().contains(id));
                }
                assert forall|m: int|
                    #![trigger rec[m]]
                    p <= m < k + 1 && !dom_tail.contains(rec[m]) implies dom_tail.contains(
                    child@[m],
                ) && !rec_tail.contains(child@[m]) by {
                    if m < k {
                        assert(child@[m] == old_child[m]);
                    } else {
                        assert(child@[m] == id);
                        assert(dom_tail.contains(old_diff[idx as int]));
                        assert(!rec_tail.contains(old_diff[idx as int]));
                    }
                }
                // A repair consumes exactly the chosen identifier.
                assert(repaired_before(dom_tail, rec, child@, p as int, k + 1)
                    =~= repaired_before(dom_tail, rec, old_child, p as int, k as int).insert(
                    id,
                )) by {
                    assert forall|x: VarId| #![auto] repaired_before(
                        dom_tail,
                        rec,
                        child@,
                        p as int,
                        k + 1,
                    ).contains(x) <==> repaired_before(
                        dom_tail,
                        rec,
                        old_child,
                        p as int,
                        k as int,
                    ).insert(id).contains(x) by {
                        if repaired_before(dom_tail, rec, child@, p as int, k + 1).contains(x) {
                            let t = choose|t: int|
                                #![trigger child@[t]]
                                p <= t < k + 1 && !dom_tail.contains(rec[t]) && child@[t] == x;
                            if t < k {
                                assert(old_child[t] == x);
                            } else {
                                assert(x == id);
                            }
                        }
                        if repaired_before(dom_tail, rec, old_child, p as int, k as int).insert(
                            id,
                        ).contains(x) {
                            if x == id {
                                assert(child@[k as int] == id);
                                assert(!dom_tail.contains(rec[k as int]));
                            } else {
                                let t = choose|t: int|
                                    #![trigger old_child[t]]
                                    p <= t < k && !dom_tail.contains(rec[t]) && old_child[t] == x;
                                assert(child@[t] == x);
                            }
                        }
                    }
                }
                assert(old_diff.to_set() == repair_pool(dom, rec, old_child, p as int, k as int));
                assert(repair_pool(dom, rec, child@, p as int, k + 1) =~= old_diff.to_set().remove(
                    id,
                ));
                assert(diff@.to_set() == repair_pool(dom, rec, child@, p as int, k + 1));
                // The placed identifier was the greedy minimum of its pool.
                lemma_repair_pool_prefix(dom, rec, old_child, child@, p as int, k as int);
                assert(repair_pool(dom, rec, child@, p as int, k as int) == old_diff.to_set());
                assert(greedy_repair_at(*graph, dom, rec, child@, p as int, k as int)) by {
                    assert(child@[k as int] == id);
                    assert(old_diff[idx as int] == id);
                    assert(old_diff.to_set().contains(id));
                    if cold {
                        assert forall|cand: VarId|
                            repair_pool(dom, rec, child@, p as int, k as int).contains(
                            cand,
                        ) implies graph.deg_of(id) <= graph.deg_of(cand) by {
                            let t = choose|t: int| 0 <= t < old_diff.len() && old_diff[t] == cand;
                            assert(graph.deg_of(old_diff[idx as int]) <= graph.deg_of(
                                old_diff[t],
                            ));
                        }
                    } else {
                        let tw = choose|tw: int|
                            p <= tw < k && !dom_tail.contains(#[trigger] rec[tw]);
                        assert(k >= 1);
                        let prev = child@[k - 1];
                        assert(prev == old_child[k - 1]);
                        assert forall|cand: VarId|
                            repair_pool(dom, rec, child@, p as int, k as int).contains(
                            cand,
                        ) implies spec_weight_ids(*graph, prev, id) <= spec_weight_ids(
                            *graph,
                            prev,
                            cand,
                        ) by {
                            let t = choose|t: int| 0 <= t < old_diff.len() && old_diff[t] == cand;
                            assert(spec_weight_ids(*graph, prev, old_diff[idx as int])
                                <= spec_weight_ids(*graph, prev, old_diff[t]));
                        }
                    }
                }
                assert forall|m: int|
                    #![trigger rec[m]]
                    p <= m < k + 1 && !dom_tail.contains(rec[m]) implies greedy_repair_at(
                    *graph,
                    dom,
                    rec,
                    child@,
                    p as int,
                    m,
                ) by {
                    if m < k {
                        assert(greedy_repair_at(*graph, dom, rec, old_child, p as int, m));
                        lemma_greedy_prefix(*graph, dom, rec, old_child, child@, p as int, m);
                    }
                }
                assert(!is_first_repair(dom_tail, rec, p as int, k + 1)) by {
                    assert(!dom_tail.contains(rec[k as int]));
                }
            }
            cold = false;
        }
        k = k + 1;
    }

    proof {
        broadcast use vstd::set::group_set_axioms;
        broadcast use vstd::seq_lib::seq_to_set_is_finite;

        lemma_pending_empty(rec, dom_tail);
        assert(diff@.len() == 0);
        assert(diff@.to_set() =~= Set::<VarId>::empty());
        assert(child@.to_set().union(diff@.to_set()).union(pending(rec, dom_tail, n as int))
            =~= child@.to_set());
        assert(child@.to_set() == dom_s);
        assert(valid_gene(*graph, child@));
        assert(child@.take(p as int) == dom.take(p as int));
    }
    child
}

/// Order crossover: one random cross point, two children, one per parent
/// order. Each child is a permutation of the full vertex set and keeps its
/// dominant parent's head verbatim. Handing in parents of unequal gene
/// length is a caller error.
pub fn cross(
    parents: (&Chromo, &Chromo),
    graph: Rc<VarLifetimeGraph>,
    eval_matrix: &EvalMatrix,
) -> (children: Vec<Chromo>)
    requires
        (*graph).wf(),
        parents.0.wf(),
        parents.1.wf(),
        parents.0.spec_graph() == *graph,
        parents.1.spec_graph() == *graph,
        eval_matrix.wf(*graph),
        parents.0.spec_gene().len() == parents.1.spec_gene().len(),
    ensures
        children@.len() == 2,
        forall|c: int|
            0 <= c < 2 ==> (#[trigger] children@[c]).wf() && children@[c].spec_graph() == *graph
                && children@[c].spec_gene().len() == parents.0.spec_gene().len()
                && children@[c].spec_gene().to_multiset() == (*graph).ids().to_multiset(),
        exists|cp: int|
            #![auto]
            0 <= cp < parents.0.spec_gene().len() && crossover_child(
                *graph,
                parents.0.spec_gene(),
                parents.1.spec_gene(),
                children@[0].spec_gene(),
                cp,
            ) && crossover_child(
                *graph,
                parents.1.spec_gene(),
                parents.0.spec_gene(),
                children@[1].spec_gene(),
                cp,
            ),
{
    proof {
        lemma_chromo_wf(*parents.0);
        lemma_chromo_wf(*parents.1);
    }
    let mut rng = rand::thread_rng();
    let size = parents.0.size();
    let cross_point = rand_index(&mut rng, size);

    let child_a_gene = cross_genes(parents.0, parents.1, cross_point, &graph, eval_matrix);
    let child_b_gene = cross_genes(parents.1, parents.0, cross_point, &graph, eval_matrix);

    proof {
        lemma_valid_gene_multiset(crate::graph::graph_of(&graph), child_a_gene@);
        lemma_valid_gene_multiset(crate::graph::graph_of(&graph), child_b_gene@);
    }
    let child_a = Chromo::new(child_a_gene, share_graph(&graph));
    let child_b = Chromo::new(child_b_gene, graph);

    let mut children: Vec<Chromo> = Vec::new();
    children.push(child_a);
    children.push(child_b);
    proof {
        assert(crossover_child(
            *graph,
            parents.0.spec_gene(),
            parents.1.spec_gene(),
            children@[0].spec_gene(),
            cross_point as int,
        ));
        assert(crossover_child(
            *graph,
            parents.1.spec_gene(),
            parents.0.spec_gene(),
            children@[1].spec_gene(),
            cross_point as int,
        ));
    }
    children
}

/// Locus-swap mutation: two positions are drawn uniformly (possibly equal,
/// a no-op swap) and exchanged; the cached decode is refreshed.
pub fn mutate(chromo: &mut Chromo)
    requires
        old(chromo).wf(),
    ensures
        final(chromo).wf(),
        final(chromo).spec_graph() == old(chromo).spec_graph(),
        final(chromo).spec_gene().to_multiset() == old(chromo).spec_gene().to_multiset(),
        exists|a: int, b: int|
            #![auto]
            0 <= a < old(chromo).spec_gene().len() && 0 <= b < old(chromo).spec_gene().len()
                && final(chromo).spec_gene() == old(chromo).spec_gene().update(
                a,
                old(chromo).spec_gene()[b],
            ).update(b, old(chromo).spec_gene()[a]),
{
    proof {
        lemma_chromo_wf(*old(chromo));
    }
    let chromo_size = chromo.size();
    let locus_a = rand_word() % chromo_size;
    let locus_b = rand_word() % chromo_size;

    chromo.swap_genes(locus_a, locus_b);
}

} // verus!
