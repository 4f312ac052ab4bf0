use std::rc::Rc;

use regalloc_ga::genalg::chromo::{Chromo, ChromoBuilder};
use regalloc_ga::graph::VarLifetimeGraph;
use regalloc_ga::lifetime::{VarId, VarLifetime};

fn path_graph() -> Rc<VarLifetimeGraph> {
    let vars_lt = vec![
        VarLifetime::new(0, 0, 2).unwrap(), // A
        VarLifetime::new(1, 1, 3).unwrap(), // B
        VarLifetime::new(2, 3, 5).unwrap(), // C
        VarLifetime::new(3, 4, 4).unwrap(), // D
    ];
    Rc::new(VarLifetimeGraph::new(&vars_lt))
}

fn is_permutation_of(gene: &[VarId], ids: &[VarId]) -> bool {
    let mut a: Vec<VarId> = gene.to_vec();
    let mut b: Vec<VarId> = ids.to_vec();
    a.sort_unstable();
    b.sort_unstable();
    a == b
}

fn coloring_is_proper(chromo: &Chromo, graph: &VarLifetimeGraph) -> bool {
    let coloring = chromo.get_coloring();
    for (i, &(u, cu)) in coloring.iter().enumerate() {
        for &(v, cv) in coloring.iter().skip(i + 1) {
            if graph.adjacent_ids(u, v) && cu == cv {
                return false;
            }
        }
    }
    true
}

#[test]
fn decode_is_order_sensitive() {
    let graph = path_graph();

    // Visiting the path in order forces a fresh color at every step.
    let chromo = Chromo::new(vec![0, 1, 2, 3], Rc::clone(&graph));
    assert_eq!(chromo.phene(), 4);
    assert_eq!(chromo.get_coloring(), &[(0, 0), (1, 1), (2, 2), (3, 3)]);

    // Interleaving the two independent pairs needs only two colors.
    let chromo = Chromo::new(vec![0, 2, 1, 3], Rc::clone(&graph));
    assert_eq!(chromo.phene(), 2);
    assert_eq!(chromo.get_coloring(), &[(0, 0), (2, 0), (1, 1), (3, 1)]);

    // Both decodes are proper colorings of the same graph.
    let a = Chromo::new(vec![0, 1, 2, 3], Rc::clone(&graph));
    let b = Chromo::new(vec![0, 2, 1, 3], Rc::clone(&graph));
    assert!(coloring_is_proper(&a, &graph));
    assert!(coloring_is_proper(&b, &graph));
}

#[test]
fn decode_is_proper_for_every_permutation() {
    // All 24 visitation orders of the path graph decode to proper
    // colorings.
    let graph = path_graph();
    let ids: [VarId; 4] = [0, 1, 2, 3];
    for i in 0..4 {
        for j in 0..4 {
            for k in 0..4 {
                for l in 0..4 {
                    let gene = vec![ids[i], ids[j], ids[k], ids[l]];
                    if is_permutation_of(&gene, &ids) {
                        let chromo = Chromo::new(gene, Rc::clone(&graph));
                        assert!(coloring_is_proper(&chromo, &graph));
                        assert!(chromo.phene() >= 2);
                        assert!(chromo.phene() <= 4);
                    }
                }
            }
        }
    }
}

#[test]
fn swap_genes_swaps_and_refreshes_the_decode() {
    let graph = path_graph();
    let mut chromo = Chromo::new(vec![0, 1, 2, 3], Rc::clone(&graph));
    assert_eq!(chromo.phene(), 4);

    // Swapping B and C turns [A,B,C,D] into [A,C,B,D].
    chromo.swap_genes(1, 2);
    assert_eq!(chromo.gene(), &[0, 2, 1, 3]);

    // The gene multiset is unchanged and the cache equals a fresh decode.
    assert!(is_permutation_of(chromo.gene(), &[0, 1, 2, 3]));
    let fresh = Chromo::new(chromo.gene().to_vec(), Rc::clone(&graph));
    assert_eq!(chromo.phene(), fresh.phene());
    assert_eq!(chromo.get_coloring(), fresh.get_coloring());
    assert_eq!(chromo.phene(), 2);

    // A no-op swap (equal loci) leaves everything in place.
    chromo.swap_genes(3, 3);
    assert_eq!(chromo.gene(), &[0, 2, 1, 3]);
    assert_eq!(chromo.phene(), 2);
}

#[test]
fn builder_yields_biased_permutations() {
    let graph = path_graph();
    let builder = ChromoBuilder::new(Rc::clone(&graph));

    for _ in 0..20 {
        let chromo = builder.build_rand_chromo();
        // Always a full permutation of the vertex set.
        assert_eq!(chromo.size(), 4);
        assert!(is_permutation_of(chromo.gene(), &[0, 1, 2, 3]));
        assert!(coloring_is_proper(&chromo, &graph));
        // The median of the sorted degrees [1,1,2,2] is the upper middle
        // entry, 2, so the low-degree half holds the path's two endpoints
        // and is shuffled in front of the two middle vertices.
        let head: Vec<VarId> = chromo.gene()[..2].to_vec();
        assert!(head.contains(&0));
        assert!(head.contains(&3));
    }
}

#[test]
fn builder_median_split_on_odd_count() {
    // A path of four plus an isolated vertex: degrees [1,2,2,1,0], sorted
    // [0,1,1,2,2], median 1. Only the isolated vertex falls strictly
    // below it; the degree-1 endpoints tie with the median and fall high.
    let vars_lt = vec![
        VarLifetime::new(0, 0, 2).unwrap(),
        VarLifetime::new(1, 1, 3).unwrap(),
        VarLifetime::new(2, 3, 5).unwrap(),
        VarLifetime::new(3, 4, 4).unwrap(),
        VarLifetime::new(4, 10, 11).unwrap(),
    ];
    let graph = Rc::new(VarLifetimeGraph::new(&vars_lt));
    let builder = ChromoBuilder::new(Rc::clone(&graph));

    for _ in 0..10 {
        let chromo = builder.build_rand_chromo();
        assert!(is_permutation_of(chromo.gene(), &[0, 1, 2, 3, 4]));
        assert_eq!(chromo.gene()[0], 4);
    }
}

#[test]
fn single_vertex_graph_builds_and_decodes() {
    let vars_lt = vec![VarLifetime::new(9, 2, 7).unwrap()];
    let graph = Rc::new(VarLifetimeGraph::new(&vars_lt));
    let builder = ChromoBuilder::new(Rc::clone(&graph));
    let chromo = builder.build_rand_chromo();
    assert_eq!(chromo.gene(), &[9]);
    assert_eq!(chromo.phene(), 1);
    assert_eq!(chromo.get_coloring(), &[(9, 0)]);
}
