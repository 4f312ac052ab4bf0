use std::rc::Rc;

use regalloc_ga::genalg::chromo::{Chromo, ChromoBuilder};
use regalloc_ga::genalg::operators::{
    cross, cross_genes, mutate, select_elite, select_ranking, EvalMatrix,
};
use regalloc_ga::graph::VarLifetimeGraph;
use regalloc_ga::lifetime::{VarId, VarLifetime};

fn path_graph() -> Rc<VarLifetimeGraph> {
    let vars_lt = vec![
        VarLifetime::new(0, 0, 2).unwrap(), // A
        VarLifetime::new(1, 1, 3).unwrap(), // B
        VarLifetime::new(2, 3, 5).unwrap(), // C
        VarLifetime::new(3, 4, 4).unwrap(), // D
    ];
    Rc::new(VarLifetimeGraph::new(&vars_lt))
}

fn is_permutation_of(gene: &[VarId], ids: &[VarId]) -> bool {
    let mut a: Vec<VarId> = gene.to_vec();
    let mut b: Vec<VarId> = ids.to_vec();
    a.sort_unstable();
    b.sort_unstable();
    a == b
}

// A small population with known fitness values:
// genes decoding to phenes 4, 2, 3, 3.
fn mixed_population(graph: &Rc<VarLifetimeGraph>) -> Vec<Chromo> {
    vec![
        Chromo::new(vec![0, 1, 2, 3], Rc::clone(graph)), // phene 4
        Chromo::new(vec![0, 2, 1, 3], Rc::clone(graph)), // phene 2
        Chromo::new(vec![2, 3, 0, 1], Rc::clone(graph)), // phene 3
        Chromo::new(vec![1, 0, 3, 2], Rc::clone(graph)), // phene 3
    ]
}

#[test]
fn selection_edge_cases() {
    let graph = path_graph();
    let empty: Vec<Chromo> = Vec::new();
    let singleton = vec![Chromo::new(vec![0, 1, 2, 3], Rc::clone(&graph))];

    // Empty populations yield empty results.
    assert_eq!(select_ranking(&empty, 5).len(), 0);
    assert_eq!(select_elite(&empty, 5).len(), 0);

    // A singleton comes back whatever the target, even zero.
    let pool = select_ranking(&singleton, 0);
    assert_eq!(pool.len(), 1);
    assert_eq!(pool[0].gene(), singleton[0].gene());
    let survivors = select_elite(&singleton, 0);
    assert_eq!(survivors.len(), 1);
    assert_eq!(survivors[0].gene(), singleton[0].gene());
}

#[test]
fn selection_sizes_on_larger_populations() {
    let graph = path_graph();
    let population = mixed_population(&graph);

    // min(target, n) results in both directions.
    assert_eq!(select_ranking(&population, 2).len(), 2);
    assert_eq!(select_ranking(&population, 9).len(), 4);
    assert_eq!(select_elite(&population, 2).len(), 2);
    assert_eq!(select_elite(&population, 9).len(), 4);

    // Every drawn member is one of the population's genes.
    for chromo in select_ranking(&population, 8).iter() {
        assert!(population.iter().any(|p| p.gene() == chromo.gene()));
    }
}

#[test]
fn elite_keeps_the_lowest_phenes() {
    let graph = path_graph();
    let population = mixed_population(&graph);

    let survivors = select_elite(&population, 2);
    let phenes: Vec<u16> = survivors.iter().map(|c| c.phene()).collect();
    // The two smallest of {4, 2, 3, 3}, ascending.
    assert_eq!(phenes, vec![2, 3]);

    // Retained worst never exceeds discarded best.
    let retained_max = phenes.iter().copied().max().unwrap();
    let mut discarded: Vec<u16> = population.iter().map(|c| c.phene()).collect();
    for p in phenes.iter() {
        let pos = discarded.iter().position(|d| d == p).unwrap();
        discarded.remove(pos);
    }
    let discarded_min = discarded.iter().copied().min().unwrap();
    assert!(retained_max <= discarded_min);
}

#[test]
fn eval_matrix_weights_follow_the_formula() {
    // Path degrees are [1, 2, 2, 1] and the vertex count is 4, so the
    // adjacency penalty is 4 / 2 = 2.
    let graph = path_graph();
    let matrix = EvalMatrix::new(&graph);

    assert_eq!(matrix.lookup(&graph, 0, 1), 1 + 2 + 2); // adjacent ends
    assert_eq!(matrix.lookup(&graph, 1, 0), 5);
    assert_eq!(matrix.lookup(&graph, 1, 2), 2 + 2 + 2); // adjacent middle
    assert_eq!(matrix.lookup(&graph, 0, 2), 1 + 2); // not adjacent
    assert_eq!(matrix.lookup(&graph, 0, 3), 1 + 1); // the two ends
    assert_eq!(matrix.lookup(&graph, 2, 3), 2 + 1 + 2);
}

#[test]
fn cross_children_are_permutations() {
    let graph = path_graph();
    let matrix = EvalMatrix::new(&graph);
    let parent_a = Chromo::new(vec![0, 1, 2, 3], Rc::clone(&graph));
    let parent_b = Chromo::new(vec![3, 1, 0, 2], Rc::clone(&graph));

    for _ in 0..20 {
        let children = cross((&parent_a, &parent_b), Rc::clone(&graph), &matrix);
        assert_eq!(children.len(), 2);
        for child in children.iter() {
            assert_eq!(child.size(), 4);
            assert!(is_permutation_of(child.gene(), &[0, 1, 2, 3]));
        }
    }
}

#[test]
fn cross_genes_is_deterministic_at_a_fixed_point() {
    let graph = path_graph();
    let matrix = EvalMatrix::new(&graph);
    let parent_a = Chromo::new(vec![0, 1, 2, 3], Rc::clone(&graph));
    let parent_b = Chromo::new(vec![3, 1, 0, 2], Rc::clone(&graph));

    // Head [0,1] verbatim; recessive tail [0,2]: 0 is not in the dominant
    // tail {2,3}, so the sole pool entry 3 fills it; 2 passes through.
    let child = cross_genes(&parent_a, &parent_b, 2, &graph, &matrix);
    assert_eq!(child, vec![0, 1, 3, 2]);

    // The mirrored parent order: head [3,1]; 2 passes through; the sole
    // pool entry 0 fills the last position.
    let child = cross_genes(&parent_b, &parent_a, 2, &graph, &matrix);
    assert_eq!(child, vec![3, 1, 2, 0]);
}

// Two disjoint three-vertex chains: degrees [1, 2, 1, 1, 2, 1], so the
// adjacency penalty is 6 / 2 = 3.
fn two_chains_graph() -> Rc<VarLifetimeGraph> {
    let vars_lt = vec![
        VarLifetime::new(0, 0, 1).unwrap(),
        VarLifetime::new(1, 1, 2).unwrap(),
        VarLifetime::new(2, 2, 3).unwrap(),
        VarLifetime::new(3, 10, 11).unwrap(),
        VarLifetime::new(4, 11, 12).unwrap(),
        VarLifetime::new(5, 12, 13).unwrap(),
    ];
    Rc::new(VarLifetimeGraph::new(&vars_lt))
}

#[test]
fn cross_genes_cold_start_repairs_by_degree() {
    // Head [2,3,1]; dominant tail {0,4,5}, recessive tail {3,5,2}, so the
    // pool is [0,4]. The first unresolved position takes the smallest
    // degree: deg(0) = 1 beats deg(4) = 2, although by weight from the
    // previous id 1 the pool entry 4 would win (w(1,0) = 2+1+3 = 6 against
    // w(1,4) = 2+2+0 = 4). Then 5 passes through and 4 fills the rest.
    let graph = two_chains_graph();
    let matrix = EvalMatrix::new(&graph);
    let parent_a = Chromo::new(vec![2, 3, 1, 0, 4, 5], Rc::clone(&graph));
    let parent_b = Chromo::new(vec![0, 4, 1, 3, 5, 2], Rc::clone(&graph));

    let child = cross_genes(&parent_a, &parent_b, 3, &graph, &matrix);
    assert_eq!(child, vec![2, 3, 1, 0, 5, 4]);
}

#[test]
fn cross_genes_later_repairs_by_weight() {
    // Head [2,0,5]; the tails {4,1,3} and {0,2,5} are disjoint, so all
    // three tail positions are repaired from the pool [4,1,3]. The cold
    // start takes 3 (degree 1, the unique minimum). The next position
    // chooses by weight from 3: w(3,1) = 1+2+0 = 3 beats w(3,4) =
    // 1+2+3 = 6 (degrees tie at 2), so 1 is placed before 4.
    let graph = two_chains_graph();
    let matrix = EvalMatrix::new(&graph);
    let parent_a = Chromo::new(vec![2, 0, 5, 4, 1, 3], Rc::clone(&graph));
    let parent_b = Chromo::new(vec![4, 1, 3, 0, 2, 5], Rc::clone(&graph));

    let child = cross_genes(&parent_a, &parent_b, 3, &graph, &matrix);
    assert_eq!(child, vec![2, 0, 5, 3, 1, 4]);
}

#[test]
fn mutate_preserves_the_gene_multiset() {
    let graph = path_graph();
    let mut chromo = Chromo::new(vec![0, 1, 2, 3], Rc::clone(&graph));

    for _ in 0..20 {
        mutate(&mut chromo);
        assert!(is_permutation_of(chromo.gene(), &[0, 1, 2, 3]));
        // The cached decode always equals a fresh decode of the new gene.
        let fresh = Chromo::new(chromo.gene().to_vec(), Rc::clone(&graph));
        assert_eq!(chromo.phene(), fresh.phene());
        assert_eq!(chromo.get_coloring(), fresh.get_coloring());
    }
}

#[test]
fn builder_and_selection_compose() {
    let graph = path_graph();
    let builder = ChromoBuilder::new(Rc::clone(&graph));
    let population: Vec<Chromo> = (0..6).map(|_| builder.build_rand_chromo()).collect();

    let survivors = select_elite(&population, 3);
    assert_eq!(survivors.len(), 3);
    let phenes: Vec<u16> = survivors.iter().map(|c| c.phene()).collect();
    assert!(phenes.windows(2).all(|w| w[0] <= w[1]));
}
