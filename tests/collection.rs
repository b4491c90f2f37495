use beamsearch_tsp::collection::{total_order_key, BeamsearchCollection, BeamsearchNode};
use beamsearch_tsp::parent_tree::ParentTreeNode;
use rand::{rngs::StdRng, Rng, SeedableRng};
use std::iter::zip;

#[derive(Debug, Clone, PartialEq, Default)]
pub struct TestNode {
    pub dummy_fitness: f64,
    pub dummy_level: f64,
}

impl BeamsearchNode for TestNode {
    fn spec_fitness(&self) -> i64 {
        total_order_key(self.dummy_fitness.to_bits())
    }

    fn fitness(&self) -> i64 {
        total_order_key(self.dummy_fitness.to_bits())
    }

    fn level(&self) -> i64 {
        total_order_key(self.dummy_level.to_bits())
    }
}

type Node = ParentTreeNode<TestNode>;

fn create_test_collection(size: usize) -> BeamsearchCollection<TestNode> {
    let mut rng = StdRng::seed_from_u64(42);

    let root = Node::new_root(TestNode {
        dummy_fitness: 0.0,
        dummy_level: 0.0,
    });
    let mut coll = BeamsearchCollection::<TestNode>::default();

    for _ in 0..size {
        coll.add(root.new_child(TestNode {
            dummy_fitness: rng.random_range(0.0..100.0),
            dummy_level: rng.random_range(0.0..100.0),
        }));
    }

    coll
}

fn with_fitnesses(values: &[f64]) -> BeamsearchCollection<TestNode> {
    let root = Node::new_root(TestNode::default());
    let mut coll = BeamsearchCollection::new();
    for v in values {
        coll.add(root.new_child(TestNode {
            dummy_fitness: *v,
            dummy_level: 0.0,
        }));
    }
    coll
}

fn fitnesses_of(coll: &BeamsearchCollection<TestNode>) -> Vec<f64> {
    coll.iter().iter().map(|e| e.1.data().dummy_fitness).collect()
}

#[test]
fn test_into_iter() {
    let coll = create_test_collection(1);

    for _node in coll.iter() {}
}

#[test]
fn test_iter() {
    let coll = create_test_collection(1);

    for _node in coll.iter().iter() {}
}

#[test]
fn test_len() {
    for i in 0..4 {
        let coll = create_test_collection(i);

        assert_eq!(coll.len(), i)
    }
}

#[test]
fn test_sort() {
    let mut coll = create_test_collection(10);

    coll.sort();

    let mut last_fitness = 0.0; // works because we generate only fitnesses between 0..100
    for entry in coll.iter() {
        assert!(entry.1.data().dummy_fitness >= last_fitness);
        last_fitness = entry.1.data().dummy_fitness;
    }
}

#[test]
fn test_keep_best() {
    let mut coll = create_test_collection(10);

    let mut fitnesses: Vec<f64> = vec![];

    for entry in coll.iter() {
        fitnesses.push(entry.1.data().dummy_fitness);
    }

    fitnesses.sort_by(|a, b| a.total_cmp(b));
    fitnesses.truncate(5);

    coll.keep_best(5);

    for (entry, expected_fitness) in zip(coll.iter(), fitnesses) {
        assert_eq!(entry.1.data().dummy_fitness, expected_fitness);
    }
}

#[test]
fn test_get_best() {
    let coll = create_test_collection(10);

    let best = coll.get_best().unwrap();

    for entry in coll.iter() {
        assert!(best.data().dummy_fitness <= entry.1.data().dummy_fitness);
    }
}

#[test]
fn test_remove_similars_removes_correct_number() {
    let mut coll = BeamsearchCollection::<TestNode>::default();

    let root = Node::new_root(TestNode {
        dummy_fitness: 0.0,
        dummy_level: 0.0,
    });

    for _ in 0..10 {
        coll.add(root.new_child(TestNode::default()));
    }

    assert_eq!(coll.len(), 10);

    let removed = coll.remove_similars(|a: &Node, b: &Node| a.data() == b.data(), |_: &Node| 0);

    assert_eq!(coll.len(), 1);
    assert_eq!(removed, 9);
}

#[test]
fn test_remove_similars_removes_only_worse() {
    let mut coll_rising_fitness = BeamsearchCollection::<TestNode>::default();
    let mut coll_decreasing_fitness = BeamsearchCollection::<TestNode>::default();

    let root = Node::new_root(TestNode {
        dummy_fitness: 0.0,
        dummy_level: 0.0,
    });

    for i in 0..10 {
        let mut child = TestNode::default();
        child.dummy_fitness = i as f64;
        coll_rising_fitness.add(root.new_child(child));

        let mut child = TestNode::default();
        child.dummy_fitness = -i as f64;
        coll_decreasing_fitness.add(root.new_child(child));
    }

    assert_eq!(coll_rising_fitness.len(), 10);
    assert_eq!(coll_decreasing_fitness.len(), 10);

    //all are equal because all share the same level
    coll_rising_fitness.remove_similars(
        |a: &Node, b: &Node| a.data().dummy_level == b.data().dummy_level,
        |n: &Node| n.data().dummy_level as u32,
    );
    coll_decreasing_fitness.remove_similars(
        |a: &Node, b: &Node| a.data().dummy_level == b.data().dummy_level,
        |n: &Node| n.data().dummy_level as u32,
    );

    assert_eq!(coll_rising_fitness.len(), 1);
    assert_eq!(coll_decreasing_fitness.len(), 1);

    assert_eq!(coll_rising_fitness.iter()[0].1.data().dummy_fitness, 0.0);
    assert_eq!(coll_decreasing_fitness.iter()[0].1.data().dummy_fitness, -9.0);
}

#[test]
fn total_order_key_orders_doubles() {
    let values = [
        f64::NEG_INFINITY,
        -1.5,
        -0.0,
        0.0,
        1e-300,
        2.0,
        f64::INFINITY,
        f64::NAN,
    ];
    for w in values.windows(2) {
        assert!(total_order_key(w[0].to_bits()) < total_order_key(w[1].to_bits()));
    }
    assert_eq!(total_order_key(0.0f64.to_bits()), 0);
    assert_eq!(total_order_key((-0.0f64).to_bits()), -1);
    assert_eq!(total_order_key(1u64), 1);
    assert_eq!(total_order_key(0x8000_0000_0000_0001), -2);
    assert_eq!(total_order_key(u64::MAX), i64::MIN);
}

#[test]
fn keep_best_keeps_the_smallest_and_reports_the_drop() {
    let mut coll = with_fitnesses(&[5.0, 1.0, 4.0, 2.0, 3.0]);

    assert_eq!(coll.keep_best(2), 3);
    assert_eq!(fitnesses_of(&coll), vec![1.0, 2.0]);
}

#[test]
fn keep_best_with_room_to_spare_changes_nothing() {
    let mut coll = with_fitnesses(&[3.0, 1.0, 2.0]);

    assert_eq!(coll.keep_best(3), 0);
    assert_eq!(coll.keep_best(10), 0);
    assert_eq!(fitnesses_of(&coll), vec![3.0, 1.0, 2.0]);
}

#[test]
fn keep_best_is_stable_among_ties() {
    let root = Node::new_root(TestNode::default());
    let mut coll = BeamsearchCollection::new();
    for level in 0..4 {
        coll.add(root.new_child(TestNode {
            dummy_fitness: if level == 2 { 0.5 } else { 1.0 },
            dummy_level: level as f64,
        }));
    }

    assert_eq!(coll.keep_best(3), 1);
    let levels: Vec<f64> = coll.iter().iter().map(|e| e.1.data().dummy_level).collect();
    assert_eq!(levels, vec![2.0, 0.0, 1.0]);
}

#[test]
fn keep_best_to_zero_empties_the_pool() {
    let mut coll = with_fitnesses(&[1.0, 2.0]);

    assert_eq!(coll.keep_best(0), 2);
    assert_eq!(coll.len(), 0);
    assert!(coll.get_best().is_none());
}

#[test]
fn get_best_of_empty_pool_is_none() {
    let coll = BeamsearchCollection::<TestNode>::new();

    assert!(coll.get_best().is_none());
    assert_eq!(coll.len(), 0);
}

#[test]
fn get_best_takes_the_first_of_equals() {
    let root = Node::new_root(TestNode::default());
    let mut coll = BeamsearchCollection::new();
    for level in 0..3 {
        coll.add(root.new_child(TestNode {
            dummy_fitness: if level == 0 { 2.0 } else { -1.0 },
            dummy_level: level as f64,
        }));
    }

    let best = coll.get_best().unwrap();
    assert_eq!(best.data().dummy_fitness, -1.0);
    assert_eq!(best.data().dummy_level, 1.0);
}

#[test]
fn sort_twice_gives_the_same_order() {
    let mut coll = create_test_collection(20);

    coll.sort();
    let once = fitnesses_of(&coll);
    coll.sort();
    assert_eq!(fitnesses_of(&coll), once);
    let mut expected = once.clone();
    expected.sort_by(|a, b| a.total_cmp(b));
    assert_eq!(once, expected);
}

#[test]
fn remove_similars_keeps_each_bucket_minimum() {
    let mut coll = with_fitnesses(&[7.0, 3.0, 8.0, 2.0, 9.0, 4.0]);

    // Buckets by parity of the fitness; all members of a bucket are similar.
    let removed = coll.remove_similars(
        |a: &Node, b: &Node| (a.data().dummy_fitness as i64) % 2 == (b.data().dummy_fitness as i64) % 2,
        |n: &Node| (n.data().dummy_fitness as u32) % 2,
    );

    assert_eq!(removed, 4);
    assert_eq!(fitnesses_of(&coll), vec![2.0, 3.0]);
}

#[test]
fn remove_similars_never_compares_across_buckets() {
    let mut coll = with_fitnesses(&[1.0, 2.0, 3.0]);

    let removed = coll.remove_similars(|_: &Node, _: &Node| true, |n: &Node| n.data().dummy_fitness as u32);

    assert_eq!(removed, 0);
    assert_eq!(fitnesses_of(&coll), vec![1.0, 2.0, 3.0]);
}
