use beamsearch_tsp::collection::{total_order_key, BeamsearchNode};
use beamsearch_tsp::solver::{is_never_similar, BeamsearchSolver, Node, Params};

#[derive(Debug, Clone, PartialEq, Default)]
pub struct TestNode {
    pub dummy_fitness: f64,
    pub dummy_level: f64,
}

impl BeamsearchNode for TestNode {
    fn spec_fitness(&self) -> i64 {
        total_order_key(self.dummy_fitness.to_bits())
    }

    fn fitness(&self) -> i64 {
        total_order_key(self.dummy_fitness.to_bits())
    }

    fn level(&self) -> i64 {
        total_order_key(self.dummy_level.to_bits())
    }
}

fn base_expander(n: &Node<TestNode>) -> Vec<TestNode> {
    if n.data().dummy_level < 2.0 {
        return vec![TestNode {
            dummy_fitness: n.data().dummy_fitness + 1.0,
            dummy_level: n.data().dummy_level + 1.0,
        }];
    }
    return vec![];
}

fn bifurcate_expander<const LAST_LEVEL: i32>(n: &Node<TestNode>) -> Vec<TestNode> {
    if n.data().dummy_level < LAST_LEVEL as f64 {
        return vec![
            TestNode {
                dummy_fitness: n.data().dummy_fitness + 1.0,
                dummy_level: n.data().dummy_level + 1.0,
            },
            TestNode {
                dummy_fitness: n.data().dummy_fitness + 1.0,
                dummy_level: n.data().dummy_level + 1.0,
            },
        ];
    }
    return vec![];
}

fn no_children(_n: &Node<TestNode>) -> Vec<TestNode> {
    vec![]
}

fn one_bucket(_n: &Node<TestNode>) -> u32 {
    0
}

#[test]
fn test_simple_solve() {
    let result = BeamsearchSolver::new(
        vec![TestNode::default()],
        base_expander,
        is_never_similar,
        one_bucket,
        |_n: &Node<TestNode>| true,
        Params {
            beam_width: 2,
            prune_similars: true,
        },
    )
    .solve()
    .best
    .unwrap();

    assert!(&result.data().dummy_fitness == &2.0);
    assert!(&result.data().dummy_level == &2.0);
}

#[test]
fn test_big_solve() {
    let result = BeamsearchSolver::new(
        vec![TestNode::default()],
        bifurcate_expander::<10>,
        is_never_similar,
        one_bucket,
        |_n: &Node<TestNode>| true,
        Params {
            beam_width: 4,
            prune_similars: true,
        },
    )
    .solve();

    let best = result.best.unwrap();

    assert_eq!(result.nr_expansions, 2 + 4 + 8 * 8);
    assert!(&best.data().dummy_fitness == &10.0);
    assert!(&best.data().dummy_level == &10.0);
}

#[test]
fn test_is_similar_effectively_prunes() {
    let result = BeamsearchSolver::new(
        vec![TestNode::default()],
        bifurcate_expander::<10>,
        |x: &Node<TestNode>, y: &Node<TestNode>| x.data() == y.data(),
        one_bucket,
        |_n: &Node<TestNode>| true,
        Params {
            beam_width: 1000,
            prune_similars: true,
        },
    )
    .solve();

    assert_eq!(result.nr_expansions, 10 * 2);
}

#[test]
fn test_is_valid_solution_checks_invalid_solution() {
    let result = BeamsearchSolver::new(
        vec![TestNode::default()],
        base_expander,
        is_never_similar,
        one_bucket,
        |_n: &Node<TestNode>| false,
        Params {
            beam_width: 2,
            prune_similars: true,
        },
    )
    .solve();
    assert!(result.best.is_none());
    assert_eq!(result.nr_expansions, 2);
}

#[test]
fn no_children_answers_from_the_start_nodes() {
    let start = vec![
        TestNode {
            dummy_fitness: 3.0,
            dummy_level: 0.0,
        },
        TestNode {
            dummy_fitness: -2.0,
            dummy_level: 1.0,
        },
        TestNode {
            dummy_fitness: 5.0,
            dummy_level: 2.0,
        },
    ];
    let result = BeamsearchSolver::new(
        start,
        no_children,
        is_never_similar,
        one_bucket,
        |_n: &Node<TestNode>| true,
        Params {
            beam_width: 1,
            prune_similars: false,
        },
    )
    .solve();

    assert_eq!(result.nr_expansions, 0);
    let best = result.best.unwrap();
    assert!(best.is_root());
    assert_eq!(best.data().dummy_fitness, -2.0);
    assert_eq!(best.data().dummy_level, 1.0);
}

#[test]
fn empty_start_finds_nothing() {
    let result = BeamsearchSolver::new(
        Vec::<TestNode>::new(),
        base_expander,
        is_never_similar,
        one_bucket,
        |_n: &Node<TestNode>| true,
        Params {
            beam_width: 5,
            prune_similars: true,
        },
    )
    .solve();

    assert!(result.best.is_none());
    assert_eq!(result.nr_expansions, 0);
}

#[test]
fn unbounded_beam_explores_the_whole_tree() {
    let result = BeamsearchSolver::new(
        vec![TestNode::default()],
        bifurcate_expander::<4>,
        is_never_similar,
        one_bucket,
        |_n: &Node<TestNode>| true,
        Params {
            beam_width: usize::MAX,
            prune_similars: false,
        },
    )
    .solve();

    assert_eq!(result.nr_expansions, 2 + 4 + 8 + 16);
    let best = result.best.unwrap();
    assert_eq!(best.data().dummy_level, 4.0);
    assert_eq!(best.ancestors().len(), 5);
}

#[test]
fn best_keeps_its_whole_path() {
    let result = BeamsearchSolver::new(
        vec![TestNode::default()],
        base_expander,
        is_never_similar,
        one_bucket,
        |n: &Node<TestNode>| n.data().dummy_level == 2.0,
        Params {
            beam_width: 3,
            prune_similars: false,
        },
    )
    .solve();

    let best = result.best.unwrap();
    let levels: Vec<f64> = best.ancestors().iter().map(|n| n.data().dummy_level).collect();
    assert_eq!(levels, vec![2.0, 1.0, 0.0]);
    assert_eq!(result.nr_expansions, 2);
}
