use beamsearch_tsp::parent_tree::ParentTreeNode;
use beamsearch_tsp::solver::Params;
use beamsearch_tsp::tsp_instance::{TSPInstance, MAX_QUANTITY};
use beamsearch_tsp::tsp_solution::{TSPSolution, TimeDist};
use beamsearch_tsp::tsp_solver::{expand, is_similar, make_tsp_solution_from_node, solve_tsp, TSPNode};
use std::sync::Arc;

fn create_solution_test_instance() -> Arc<TSPInstance> {
    Arc::new(TSPInstance::new(
        2,
        vec![vec![0, 1], vec![2, 0]],
        vec![(0, 101), (2, 2)],
    ))
}

fn create_test_instance() -> TSPInstance {
    // Optimal: 0 -> 2 -> 1 -> 0, with total cost 1200 and 4 / 100 waiting times in first two steps
    TSPInstance::new(
        3,
        vec![vec![0, 1000, 1], vec![1000, 0, 1000], vec![1000, 100, 0]],
        vec![(0, 1200), (200, 2000), (5, 2000)],
    )
}

fn create_small_instance() -> TSPInstance {
    TSPInstance::new(2, vec![vec![0, 1], vec![2, 0]], vec![(0, 1), (2, 100)])
}

fn root_at_zero() -> ParentTreeNode<TSPNode> {
    ParentTreeNode::new_root(TSPNode {
        time: 0,
        target: 0,
        dist: 0,
        visited_node_hash: 0,
    })
}

#[test]
fn test_valid_solution() {
    let valid_solution = TSPSolution::new(create_solution_test_instance(), vec![0, 1, 0]);

    assert!(valid_solution.is_valid_subsolution());
    assert!(valid_solution.is_valid());
}

#[test]
fn test_invalid_solution() {
    let invalid_solution = TSPSolution::new(create_solution_test_instance(), vec![1, 0, 1]);

    assert!(!invalid_solution.is_valid());
}

#[test]
fn test_invalid_solution_because_no_roundtrip() {
    let invalid_solution = TSPSolution::new(create_solution_test_instance(), vec![0, 1]);

    assert!(!invalid_solution.is_valid());
}

#[test]
fn test_valid_subsolution() {
    let valid_solution = TSPSolution::new(create_solution_test_instance(), vec![0]);

    assert!(valid_solution.is_valid_subsolution());
}

#[test]
fn test_invalid_subsolution() {
    let invalid_solution = TSPSolution::new(create_solution_test_instance(), vec![1, 0, 1]);

    assert!(!invalid_solution.is_valid_subsolution());
}

#[test]
fn test_empty_subsolution_is_valid() {
    let empty_solution = TSPSolution::new(create_solution_test_instance(), vec![]);

    assert!(empty_solution.is_valid_subsolution());
}

#[test]
fn test_cost_works() {
    let valid_solution = TSPSolution::new(create_solution_test_instance(), vec![0, 1]);

    assert_eq!(valid_solution.get_time_distance(), TimeDist { time: 2, dist: 1 });
}

#[test]
fn test_special_case_single_city_is_valid() {
    let single_city_instance = Arc::new(TSPInstance::new(1, vec![vec![0]], vec![(0, 100)]));
    let sol = TSPSolution::new(single_city_instance, vec![0]);

    assert!(sol.is_valid())
}

#[test]
fn test_lower_bound_of_time_window_makes_visitor_wait_if_arrives_too_early_for_single_city() {
    let single_city_instance = Arc::new(TSPInstance::new(1, vec![vec![0]], vec![(100, 101)]));
    let sol = TSPSolution::new(single_city_instance, vec![0]);

    assert_eq!(sol.get_time_distance(), TimeDist { time: 100, dist: 0 });
    assert!(sol.is_valid())
}

#[test]
fn test_lower_bound_of_time_window_makes_visitor_wait_if_arrives_too_early() {
    let two_city_instance = Arc::new(TSPInstance::new(
        2,
        vec![vec![0, 0], vec![0, 0]],
        vec![(0, 2000), (2000, 3000)],
    ));
    let sol = TSPSolution::new(two_city_instance, vec![0, 1, 0]);

    assert_eq!(sol.get_time_distance(), TimeDist { time: 2000, dist: 0 });
    assert!(sol.is_valid())
}

#[test]
fn test_time_distance_diffs() {
    let instance = create_solution_test_instance();
    let sol = TSPSolution::new(instance, vec![0, 1, 0]);

    let time_distances = sol.get_time_distance_diffs();
    assert_eq!(
        time_distances,
        vec![TimeDist { time: 2, dist: 1 }, TimeDist { time: 2, dist: 2 }]
    );
}

#[test]
pub fn expander_works() {
    let instance = create_small_instance();
    let node = root_at_zero();
    let expanded = expand(&node, &instance);

    assert_eq!(expanded.len(), 1);
    let node = &expanded[0];
    assert_eq!(node.time, 2);
    assert_eq!(node.target, 1);
    assert_eq!(node.dist, 1);
}

#[test]
pub fn expander_does_not_consider_nodes_too_far_in_future() {
    // we start at 0. We can only expand 1.
    // 2 would result in time 2001, because of window 2000, which would make 1 unfullfillable
    // 3 would result in time 2001, because of distance 2000, which would make 1 unfullfillable
    let instance = TSPInstance::new(
        4,
        vec![
            vec![0, 0, 0, 2001],
            vec![0, 0, 0, 0],
            vec![0, 0, 0, 0],
            vec![0, 0, 0, 0],
        ],
        vec![(0, 3000), (1000, 2000), (2001, 3000), (0, 4000)],
    );
    let node = root_at_zero();
    let expanded = expand(&node, &instance);

    assert_eq!(expanded.len(), 1);
    let node = &expanded[0];
    assert_eq!(node.time, 1000);
    assert_eq!(node.target, 1);
    assert_eq!(node.dist, 0);
}

#[test]
pub fn simple_test() {
    let instance = create_test_instance();

    let result = solve_tsp(
        Arc::new(instance),
        Params {
            beam_width: 100,
            prune_similars: true,
        },
    );

    assert!(result.is_some());

    let sol = result.unwrap();

    println!("{:?}", sol.get_path());
    assert_eq!(*sol.get_path(), vec![0, 2, 1, 0]);
    assert_eq!(sol.get_time_distance(), TimeDist { time: 1200, dist: 1101 });
    assert!(sol.is_valid());
}

#[test]
fn expander_stops_when_a_window_has_closed() {
    let instance = create_test_instance();
    let node = ParentTreeNode::new_root(TSPNode {
        time: 2001,
        target: 0,
        dist: 0,
        visited_node_hash: 1,
    });

    assert!(expand(&node, &instance).is_empty());
}

#[test]
fn expander_returns_to_the_start_after_all_cities() {
    let instance = create_test_instance();
    let root = ParentTreeNode::new_root(TSPNode {
        time: 0,
        target: 0,
        dist: 0,
        visited_node_hash: 1,
    });
    let step1 = expand(&root, &instance);
    assert_eq!(step1.iter().map(|c| c.target).collect::<Vec<_>>(), vec![1, 2]);
    assert_eq!(step1[1].time, 5);
    assert_eq!(step1[1].dist, 1);
    assert_eq!(step1[1].visited_node_hash, 3);

    let at_two = root.new_child(step1[1]);
    let step2 = expand(&at_two, &instance);
    assert_eq!(step2.len(), 1);
    assert_eq!(step2[0].target, 1);
    assert_eq!(step2[0].time, 200);
    assert_eq!(step2[0].dist, 101);

    let at_one = at_two.new_child(step2[0]);
    let step3 = expand(&at_one, &instance);
    assert_eq!(step3.len(), 1);
    assert_eq!(step3[0].target, 0);
    assert_eq!(step3[0].time, 1200);
    assert_eq!(step3[0].dist, 1101);

    let home = at_one.new_child(step3[0]);
    assert!(expand(&home, &instance).is_empty());

    let route = make_tsp_solution_from_node(Arc::new(create_test_instance()), &home);
    assert_eq!(*route.get_path(), vec![0, 2, 1, 0]);
    assert!(route.is_valid());
}

#[test]
fn similar_means_same_city_and_same_visited_set() {
    let root = root_at_zero();
    let payload = |target: usize, time: u64| TSPNode {
        time,
        target,
        dist: 0,
        visited_node_hash: 0,
    };
    let a = root.new_child(payload(1, 5)).new_child(payload(2, 9));
    let b = root.new_child(payload(2, 3)).new_child(payload(1, 4)).new_child(payload(2, 7));
    let c = root.new_child(payload(3, 3)).new_child(payload(2, 4));
    let d = root.new_child(payload(2, 3)).new_child(payload(1, 4));

    assert!(is_similar(&a, &b));
    assert!(is_similar(&a, &a));
    assert!(!is_similar(&a, &c));
    assert!(!is_similar(&a, &d));
}

#[test]
fn single_city_is_solved_by_staying() {
    let instance = Arc::new(TSPInstance::new(1, vec![vec![0]], vec![(7, 10)]));

    let sol = solve_tsp(
        instance,
        Params {
            beam_width: 3,
            prune_similars: false,
        },
    )
    .unwrap();

    assert_eq!(*sol.get_path(), vec![0]);
    assert_eq!(sol.get_time_distance(), TimeDist { time: 7, dist: 0 });
}

#[test]
fn infeasible_windows_give_no_solution() {
    let instance = Arc::new(TSPInstance::new(
        2,
        vec![vec![0, 50], vec![50, 0]],
        vec![(0, 60), (0, 10)],
    ));

    let result = solve_tsp(
        instance,
        Params {
            beam_width: 10,
            prune_similars: true,
        },
    );

    assert!(result.is_none());
}

#[test]
fn instance_accessors() {
    let instance = create_test_instance();

    assert_eq!(instance.len(), 3);
    assert_eq!(instance.dist_from_to(2, 1), 100);
    assert_eq!(instance.window_of(1), (200, 2000));
    assert!(instance.window_of_contains(1, 200));
    assert!(instance.window_of_contains(1, 2000));
    assert!(!instance.window_of_contains(1, 199));
    assert!(!instance.window_of_contains(1, 2001));
}

#[test]
fn instance_parts_are_checked() {
    assert!(TSPInstance::check_parts(2, &vec![vec![0, 1], vec![2, 0]], &vec![(0, 1), (2, 3)]));
    assert!(!TSPInstance::check_parts(2, &vec![vec![0, 1], vec![2]], &vec![(0, 1), (2, 3)]));
    assert!(!TSPInstance::check_parts(2, &vec![vec![0, 1]], &vec![(0, 1), (2, 3)]));
    assert!(!TSPInstance::check_parts(1, &vec![vec![MAX_QUANTITY + 1]], &vec![(0, 1)]));
    assert!(!TSPInstance::check_parts(1, &vec![vec![0]], &vec![(0, MAX_QUANTITY + 1)]));
}

#[test]
fn solution_checks_its_cities() {
    let sol = TSPSolution::new(create_solution_test_instance(), vec![0, 1, 0]);
    let bad = TSPSolution::new(create_solution_test_instance(), vec![0, 5]);

    assert!(sol.names_cities_only());
    assert!(!bad.names_cities_only());
    assert_eq!(sol.get_instance().len(), 2);
}

#[test]
fn early_repeat_is_invalid() {
    let instance = Arc::new(TSPInstance::new(
        3,
        vec![vec![0, 1, 1], vec![1, 0, 1], vec![1, 1, 0]],
        vec![(0, 100), (0, 100), (0, 100)],
    ));
    let sol = TSPSolution::new(instance, vec![0, 1, 1, 0]);

    assert!(!sol.is_valid_subsolution());
    assert!(!sol.is_valid());
}

#[test]
fn time_dist_adds_fieldwise() {
    let a = TimeDist { time: 1, dist: 2 };
    let b = TimeDist { time: 3, dist: 4 };

    assert_eq!(a + b, TimeDist { time: 4, dist: 6 });
    assert_eq!(
        TimeDist { time: u64::MAX, dist: 0 } + b,
        TimeDist { time: u64::MAX, dist: 4 }
    );
}
