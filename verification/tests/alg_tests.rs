use std::rc::Rc;

use regalloc_ga::genalg::alg::GenAlg;
use regalloc_ga::genalg::chromo::{Chromo, ChromoBuilder};
use regalloc_ga::graph::VarLifetimeGraph;
use regalloc_ga::lifetime::{VarId, VarLifetime};

fn path_graph() -> Rc<VarLifetimeGraph> {
    let vars_lt = vec![
        VarLifetime::new(0, 0, 2).unwrap(), // A
        VarLifetime::new(1, 1, 3).unwrap(), // B
        VarLifetime::new(2, 3, 5).unwrap(), // C
        VarLifetime::new(3, 4, 4).unwrap(), // D
    ];
    Rc::new(VarLifetimeGraph::new(&vars_lt))
}

fn is_permutation_of(gene: &[VarId], ids: &[VarId]) -> bool {
    let mut a: Vec<VarId> = gene.to_vec();
    let mut b: Vec<VarId> = ids.to_vec();
    a.sort_unstable();
    b.sort_unstable();
    a == b
}

fn coloring_is_proper(chromo: &Chromo, graph: &VarLifetimeGraph) -> bool {
    let coloring = chromo.get_coloring();
    for (i, &(u, cu)) in coloring.iter().enumerate() {
        for &(v, cv) in coloring.iter().skip(i + 1) {
            if graph.adjacent_ids(u, v) && cu == cv {
                return false;
            }
        }
    }
    true
}

fn new_alg(graph: &Rc<VarLifetimeGraph>) -> GenAlg {
    let builder = ChromoBuilder::new(Rc::clone(graph));
    GenAlg::new(Rc::clone(graph), builder, (1, 2), (1, 1))
}

#[test]
fn pick_winner_on_empty_population_is_none() {
    let graph = path_graph();
    let alg = new_alg(&graph);
    assert!(alg.pick_winner().is_none());
}

#[test]
fn pick_winner_returns_the_minimal_phene() {
    let graph = path_graph();
    let mut alg = new_alg(&graph);
    alg.population = vec![
        Chromo::new(vec![0, 1, 2, 3], Rc::clone(&graph)), // phene 4
        Chromo::new(vec![2, 3, 0, 1], Rc::clone(&graph)), // phene 3
        Chromo::new(vec![0, 2, 1, 3], Rc::clone(&graph)), // phene 2
        Chromo::new(vec![1, 0, 3, 2], Rc::clone(&graph)), // phene 3
    ];

    let winner = alg.pick_winner().unwrap();
    assert_eq!(winner.phene(), 2);
    assert_eq!(winner.gene(), &[0, 2, 1, 3]);
}

#[test]
fn one_generation_end_to_end() {
    // One full generation on the path graph: population 4, selection 4,
    // mutation ratio 1/2, crossover ratio 1. The best phene of the
    // resulting population never exceeds the worst phene of generation 0,
    // and every chromosome stays a valid permutation with a proper
    // coloring after every step.
    let graph = path_graph();
    let mut alg = new_alg(&graph);

    alg.gen(4);
    assert_eq!(alg.population.len(), 4);
    let gen0_worst = alg.population.iter().map(|c| c.phene()).max().unwrap();

    alg.select(4);
    assert_eq!(alg.selection_pool.len(), 4);

    alg.cross();
    assert!(alg.selection_pool.is_empty());
    // A crossover ratio of one mates every pool member: two children each.
    assert_eq!(alg.next_gen.len(), 8);
    for chromo in alg.next_gen.iter() {
        assert!(is_permutation_of(chromo.gene(), &[0, 1, 2, 3]));
        assert!(coloring_is_proper(chromo, &graph));
    }

    alg.mutate();
    assert_eq!(alg.next_gen.len(), 8);
    for chromo in alg.next_gen.iter() {
        assert!(is_permutation_of(chromo.gene(), &[0, 1, 2, 3]));
        assert!(coloring_is_proper(chromo, &graph));
    }

    alg.accept();
    assert!(alg.next_gen.is_empty());
    assert_eq!(alg.population.len(), 12);

    alg.reduce(4);
    assert_eq!(alg.population.len(), 4);
    for chromo in alg.population.iter() {
        assert!(is_permutation_of(chromo.gene(), &[0, 1, 2, 3]));
        assert!(coloring_is_proper(chromo, &graph));
    }

    let best = alg.pick_winner().unwrap().phene();
    assert!(best <= gen0_worst);
}

#[test]
fn zero_cross_ratio_breeds_nothing() {
    let graph = path_graph();
    let builder = ChromoBuilder::new(Rc::clone(&graph));
    let mut alg = GenAlg::new(Rc::clone(&graph), builder, (1, 2), (0, 1));
    alg.gen(4);
    alg.select(4);
    alg.cross();
    assert!(alg.selection_pool.is_empty());
    assert!(alg.next_gen.is_empty());
}

#[test]
fn winner_coloring_is_usable_as_a_register_assignment() {
    // A few generations drive the path graph to its greedy optimum of two
    // colors reachable by some visitation order.
    let graph = path_graph();
    let mut alg = new_alg(&graph);
    alg.gen(8);
    for _ in 0..5 {
        alg.select(8);
        alg.cross();
        alg.mutate();
        alg.accept();
        alg.reduce(8);
    }
    let winner = alg.pick_winner().unwrap();
    assert!(coloring_is_proper(winner, &graph));
    assert!(winner.phene() >= 2);
    assert!(winner.phene() <= 4);
    assert_eq!(winner.get_coloring().len(), 4);
}
