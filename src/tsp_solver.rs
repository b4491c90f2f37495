//! The travelling-salesman adapter of the beam search: payloads, the expander,
//! the similarity of two partial routes, and the search itself.

use crate::collection::BeamsearchNode;
use crate::parent_tree::share;
use crate::solver::{
    expand_rel, lemma_run_weakens, runs_to, valid_rel, BeamsearchSolver, Node, Params,
};
use crate::collection::{bucket_rel, similar_rel};
use crate::tsp_instance::{TSPInstance, MAX_CITIES};
use crate::tsp_solution::{sat_add, spec_valid, TSPSolution, MAX_PATH_LEN};
use crate::utility::{calc_commutative_hash, spec_hash_step};
use std::sync::Arc;
use vstd::prelude::*;

verus! {

/// One step of a route: the city reached, when it is left, the distance so far,
/// and the fingerprint of the cities visited.
#[derive(Clone, Copy, Debug, PartialEq, Eq)]
pub struct TSPNode {
    pub time: u64,
    pub dist: u64,
    pub target: usize,
    pub visited_node_hash: u32,
}

impl BeamsearchNode for TSPNode {
    /// The distance so far (capped at `i64::MAX`).
    open spec fn spec_fitness(&self) -> i64 {
        if self.dist > i64::MAX as u64 {
            i64::MAX
        } else {
            self.dist as i64
        }
    }

    /// The distance so far (capped at `i64::MAX`).
    fn fitness(&self) -> (r: i64) {
        if self.dist > i64::MAX as u64 {
            i64::MAX
        } else {
            self.dist as i64
        }
    }

    /// The time so far (capped at `i64::MAX`).
    fn level(&self) -> i64 {
        if self.time > i64::MAX as u64 {
            i64::MAX
        } else {
            self.time as i64
        }
    }
}

/// The cities of the tree path from `node` back to its root.
pub open spec fn cities_back(node: Node<TSPNode>) -> Seq<usize> {
    node.path().map_values(|p: TSPNode| p.target)
}

/// The route that leads to `node`: its cities from the root on.
pub open spec fn route_of(node: Node<TSPNode>) -> Seq<usize> {
    cities_back(node).reverse()
}

/// The number of route steps after which a route is complete.
pub open spec fn full_route_len(n: nat) -> nat {
    if n > 1 {
        n + 1
    } else {
        1
    }
}

/// City `c` may come next after the cities `visited`: it was not visited yet,
/// or every city was and `c` is where the route started.
pub open spec fn is_candidate(visited: Seq<usize>, n: nat, c: int) -> bool {
    0 <= c < n && (!visited.contains(c as usize) || (visited.len() == n && c == visited.last()))
}

/// When `c` is left if it is entered from `p`.
pub open spec fn next_time(inst: TSPInstance, p: TSPNode, c: int) -> u64 {
    let arrival = sat_add(p.time, inst.spec_dist(p.target as int, c) as u64);
    if arrival >= inst.spec_open(c) {
        arrival
    } else {
        inst.spec_open(c) as u64
    }
}

/// Going on to `c` leaves time to reach every candidate before its window
/// closes.
#[verifier::opaque]
pub open spec fn fits_horizon(inst: TSPInstance, p: TSPNode, visited: Seq<usize>, c: int) -> bool {
    forall|d: int| is_candidate(visited, inst.spec_len(), d) ==> next_time(inst, p, c) <= inst.spec_close(d)
}

/// Some candidate's window has closed already.
pub open spec fn is_blocked(inst: TSPInstance, p: TSPNode, visited: Seq<usize>) -> bool {
    exists|d: int| is_candidate(visited, inst.spec_len(), d) && inst.spec_close(d) < p.time
}

/// The child payload for going on from `p` to `c`.
pub open spec fn spec_child(inst: TSPInstance, p: TSPNode, c: int) -> TSPNode {
    TSPNode {
        time: next_time(inst, p, c),
        dist: sat_add(p.dist, inst.spec_dist(p.target as int, c) as u64),
        target: c as usize,
        visited_node_hash: spec_hash_step(p.visited_node_hash, c),
    }
}

/// Whether `v` holds `c`.
fn contains_city(v: &Vec<usize>, c: usize) -> (r: bool)
    ensures
        r == v@.contains(c),
{
    let mut i: usize = 0;
    while i < v.len()
        invariant
            i <= v@.len(),
            forall|j: int| 0 <= j < i ==> v@[j] != c,
        decreases v@.len() - i,
    {
        if v[i] == c {
            return true;
        }
        i += 1;
    }
    false
}

/// The cities from `node` back to its root.
fn visited_cities(node: &Node<TSPNode>) -> (r: Vec<usize>)
    ensures
        r@ == cities_back(*node),
{
    let lineage = node.ancestors();
    let mut out: Vec<usize> = Vec::new();
    let mut i: usize = 0;
    proof {
        node.lemma_lineage_paths();
        node.lemma_path_shape();
    }
    while i < lineage.len()
        invariant
            i <= lineage@.len() == node.lineage().len() == node.path().len(),
            forall|k: int| 0 <= k < lineage@.len() ==> *(#[trigger] lineage@[k]) == node.lineage()[k],
            forall|k: int|
                0 <= k < node.lineage().len() ==> (#[trigger] node.lineage()[k]).path()
                    == node.path().subrange(k, node.path().len() as int),
            out@ == cities_back(*node).take(i as int),
        decreases lineage@.len() - i,
    {
        let city = lineage[i].data().target;
        proof {
            assert(node.path().subrange(i as int, node.path().len() as int)[0] == node.path()[i as int]);
            assert(out@.push(city) =~= cities_back(*node).take(i + 1));
        }
        out.push(city);
        i += 1;
    }
    proof {
        assert(out@ =~= cities_back(*node));
    }
    out
}

/// The route that leads to `node` through `instance`, as a solution.
pub fn make_tsp_solution_from_node(instance: Arc<TSPInstance>, node: &Node<TSPNode>) -> (r: TSPSolution)
    ensures
        r.spec_instance() == *instance,
        r.spec_path() == route_of(*node),
{
    let back = visited_cities(node);
    let mut path: Vec<usize> = Vec::new();
    let mut i: usize = back.len();
    while i > 0
        invariant
            i <= back@.len(),
            path@.len() == back@.len() - i,
            forall|k: int| 0 <= k < path@.len() ==> #[trigger] path@[k] == back@[back@.len() - 1 - k],
        decreases i,
    {
        i -= 1;
        path.push(back[i]);
    }
    proof {
        assert(path@ =~= back@.reverse());
    }
    TSPSolution::new(instance, path)
}

/// What expanding `node` gives: see [`expand`].
pub open spec fn is_expansion(inst: TSPInstance, node: Node<TSPNode>, r: Seq<TSPNode>) -> bool {
    let p = node.path()[0];
    let visited = cities_back(node);
    let n = inst.spec_len();
    if p.target >= n || visited.len() == full_route_len(n) || is_blocked(inst, p, visited) {
        r.len() == 0
    } else {
        &&& forall|i: int|
            0 <= i < r.len() ==> #[trigger] r[i] == spec_child(inst, p, r[i].target as int)
                && is_candidate(visited, n, r[i].target as int) && fits_horizon(
                inst,
                p,
                visited,
                r[i].target as int,
            )
        &&& forall|i: int, j: int| 0 <= i < j < r.len() ==> (#[trigger] r[i]).target < (#[trigger] r[j]).target
        &&& forall|c: int|
            is_candidate(visited, n, c) && fits_horizon(inst, p, visited, c) ==> exists|i: int|
                0 <= i < r.len() && (#[trigger] r[i]).target == c
    }
}

/// The children of `node`: one for each candidate city (see [`is_candidate`])
/// whose time leaves every candidate reachable, in ascending order of city; none
/// when the route is complete, when a candidate's window has closed already, or
/// when the node's city is not one of the instance.
pub fn expand(node: &Node<TSPNode>, instance: &TSPInstance) -> (r: Vec<TSPNode>)
    requires
        instance.wf(),
    ensures
        is_expansion(*instance, *node, r@),
{
    let ghost inst = *instance;
    let n = instance.len();
    let p = *node.data();
    let visited = visited_cities(node);
    let ghost vs = visited@;
    if p.target >= n {
        return Vec::new();
    }
    let end_len: usize = if n > 1 {
        n + 1
    } else {
        1
    };
    if visited.len() == end_len {
        return Vec::new();
    }
    let mut remaining: Vec<usize> = Vec::new();
    let mut c: usize = 0;
    while c < n
        invariant
            n == inst.spec_len(),
            inst == *instance,
            vs == visited@,
            c <= n,
            forall|k: int| 0 <= k < remaining@.len() ==> is_candidate(vs, n as nat, #[trigger] remaining@[k] as int),
            forall|k: int| 0 <= k < remaining@.len() ==> #[trigger] remaining@[k] < c,
            forall|i: int, j: int| 0 <= i < j < remaining@.len() ==> (#[trigger] remaining@[i]) < (#[trigger] remaining@[j]),
            forall|d: int| 0 <= d < c && is_candidate(vs, n as nat, d) ==> remaining@.contains(d as usize),
        decreases n - c,
    {
        let is_new = !contains_city(&visited, c);
        let back_to_start = visited.len() == n && visited.len() > 0 && c == visited[visited.len() - 1];
        let ghost before = remaining@;
        proof {
            assert(is_candidate(vs, n as nat, c as int) == (is_new || back_to_start));
        }
        if is_new || back_to_start {
            remaining.push(c);
        }
        proof {
            assert forall|d: int| 0 <= d < c + 1 && is_candidate(vs, n as nat, d) implies remaining@.contains(d as usize) by {
                if d == c {
                    assert(remaining@[remaining@.len() - 1] == c);
                } else {
                    let j = choose|j: int| 0 <= j < before.len() && before[j] == d as usize;
                    assert(remaining@[j] == d as usize);
                }
            }
        }
        c += 1;
    }
    let mut horizon: u64 = u64::MAX;
    let mut k: usize = 0;
    while k < remaining.len()
        invariant
            inst.wf(),
            n == inst.spec_len(),
            inst == *instance,
            k <= remaining@.len(),
            forall|m: int| 0 <= m < remaining@.len() ==> is_candidate(vs, n as nat, #[trigger] remaining@[m] as int),
            forall|d: int| is_candidate(vs, n as nat, d) ==> remaining@.contains(d as usize),
            forall|m: int| 0 <= m < k ==> p.time <= inst.spec_close(#[trigger] remaining@[m] as int),
            forall|m: int| 0 <= m < k ==> horizon <= inst.spec_close(#[trigger] remaining@[m] as int),
            k == 0 ==> horizon == u64::MAX,
            k > 0 ==> exists|m: int| 0 <= m < k && horizon == inst.spec_close(#[trigger] remaining@[m] as int),
            vs == cities_back(*node),
            node.path().len() >= 1,
            p == node.path()[0],
        decreases remaining@.len() - k,
    {
        let close = instance.window_of(remaining[k]).1;
        if close < p.time {
            proof {
                assert(is_candidate(vs, n as nat, remaining@[k as int] as int));
                assert(is_blocked(inst, p, vs));
            }
            return Vec::new();
        }
        if close < horizon {
            horizon = close;
        }
        k += 1;
    }
    proof {
        assert forall|d: int| is_candidate(vs, n as nat, d) implies inst.spec_close(d) >= p.time && horizon <= inst.spec_close(d) by {
            assert(remaining@.contains(d as usize));
            let m = choose|m: int| 0 <= m < remaining@.len() && remaining@[m] == d as usize;
            assert(p.time <= inst.spec_close(remaining@[m] as int));
        }
    }
    children_within(instance, p, &remaining, horizon, Ghost(vs))
}

/// Every city of `a` occurs in `b`.
fn all_contained(a: &Vec<usize>, b: &Vec<usize>) -> (r: bool)
    ensures
        r == (forall|i: int| 0 <= i < a@.len() ==> b@.contains(#[trigger] a@[i])),
{
    let mut i: usize = 0;
    while i < a.len()
        invariant
            i <= a@.len(),
            forall|k: int| 0 <= k < i ==> b@.contains(#[trigger] a@[k]),
        decreases a@.len() - i,
    {
        if !contains_city(b, a[i]) {
            return false;
        }
        i += 1;
    }
    true
}

/// Two route ends are similar when they stand at the same city and have
/// visited the same set of cities.
pub fn is_similar(a: &Node<TSPNode>, b: &Node<TSPNode>) -> (r: bool)
    ensures
        r == spec_is_similar(*a, *b),
{
    if a.data().target != b.data().target {
        return false;
    }
    let a_cities = visited_cities(a);
    let b_cities = visited_cities(b);
    let a_in_b = all_contained(&a_cities, &b_cities);
    let b_in_a = all_contained(&b_cities, &a_cities);
    proof {
        let sa = a_cities@.to_set();
        let sb = b_cities@.to_set();
        if a_in_b && b_in_a {
            assert forall|x: usize| sa.contains(x) == sb.contains(x) by {
                if a_cities@.contains(x) {
                    let i = choose|i: int| 0 <= i < a_cities@.len() && a_cities@[i] == x;
                    assert(b_cities@.contains(a_cities@[i]));
                }
                if b_cities@.contains(x) {
                    let i = choose|i: int| 0 <= i < b_cities@.len() && b_cities@[i] == x;
                    assert(a_cities@.contains(b_cities@[i]));
                }
            }
            assert(sa =~= sb);
        } else if !a_in_b {
            let i = choose|i: int| 0 <= i < a_cities@.len() && !b_cities@.contains(#[trigger] a_cities@[i]);
            assert(sa.contains(a_cities@[i]));
            assert(!sb.contains(a_cities@[i]));
        } else {
            let i = choose|i: int| 0 <= i < b_cities@.len() && !a_cities@.contains(#[trigger] b_cities@[i]);
            assert(sb.contains(b_cities@[i]));
            assert(!sa.contains(b_cities@[i]));
        }
    }
    a_in_b && b_in_a
}

/// The bucket of a route end for pruning: the fingerprint of its visited
/// cities.
pub fn visited_hash(n: &Node<TSPNode>) -> (r: u32)
    ensures
        r == n.path()[0].visited_node_hash,
{
    n.data().visited_node_hash
}

/// The first step of every route: city 0, left when its window opens.
pub open spec fn tsp_start(inst: TSPInstance) -> TSPNode {
    TSPNode { time: inst.spec_open(0) as u64, dist: 0, target: 0, visited_node_hash: 1 }
}

/// Two route ends stand at the same city and have visited the same set of
/// cities.
pub open spec fn spec_is_similar(a: Node<TSPNode>, b: Node<TSPNode>) -> bool {
    a.path()[0].target == b.path()[0].target && cities_back(a).to_set() == cities_back(b).to_set()
}

/// The route leading to `n` names cities of `inst` only, is not too long, and is
/// a complete, valid round trip.
pub open spec fn route_accepted(inst: TSPInstance, n: Node<TSPNode>) -> bool {
    let route = route_of(n);
    &&& route.len() <= MAX_PATH_LEN
    &&& forall|i: int| 0 <= i < route.len() ==> (#[trigger] route[i]) < inst.spec_len()
    &&& spec_valid(inst, route)
}

/// Expansion in the travelling-salesman search.
pub open spec fn tsp_expands(inst: TSPInstance) -> spec_fn(Node<TSPNode>, Seq<TSPNode>) -> bool {
    |n: Node<TSPNode>, c: Seq<TSPNode>| is_expansion(inst, n, c)
}

/// Similarity in the travelling-salesman search.
pub open spec fn tsp_similar() -> spec_fn(Node<TSPNode>, Node<TSPNode>, bool) -> bool {
    |a: Node<TSPNode>, b: Node<TSPNode>, r: bool| r == spec_is_similar(a, b)
}

/// Buckets in the travelling-salesman search: the visited-city fingerprint.
pub open spec fn tsp_bucket() -> spec_fn(Node<TSPNode>, u32) -> bool {
    |n: Node<TSPNode>, k: u32| k == n.path()[0].visited_node_hash
}

/// Acceptance in the travelling-salesman search.
pub open spec fn tsp_valid(inst: TSPInstance) -> spec_fn(Node<TSPNode>, bool) -> bool {
    |n: Node<TSPNode>, r: bool| r == route_accepted(inst, n)
}

/// A whole travelling-salesman search of `inst`: it starts from the single root
/// [`tsp_start`] and runs as [`runs_to`] says, with the expansion, similarity,
/// buckets and acceptance above, ending with `best` and `nr` expansions.
pub open spec fn tsp_runs_to(
    inst: TSPInstance,
    prune: bool,
    width: usize,
    fs: Seq<Seq<(i64, Node<TSPNode>)>>,
    counts: Seq<nat>,
    best: Option<Node<TSPNode>>,
    nr: usize,
) -> bool {
    &&& fs.len() > 0
    &&& fs[0].len() == 1
    &&& fs[0][0].1.path() == seq![tsp_start(inst)]
    &&& fs[0][0].0 == tsp_start(inst).spec_fitness()
    &&& runs_to(
        tsp_expands(inst),
        tsp_similar(),
        tsp_bucket(),
        tsp_valid(inst),
        prune,
        width,
        fs[0],
        fs,
        counts,
        best,
        nr,
    )
}

/// Searches `instance` for a round trip from city 0 with a beam search: the
/// result is the route to the best candidate that the search accepted, and
/// `None` exactly when it accepted none.
pub fn solve_tsp(instance: Arc<TSPInstance>, params: Params) -> (r: Option<TSPSolution>)
    requires
        instance.wf(),
        instance.spec_len() > 0,
    ensures
        exists|
            fs: Seq<Seq<(i64, Node<TSPNode>)>>,
            counts: Seq<nat>,
            best: Option<Node<TSPNode>>,
            nr: usize,
        |
            #[trigger] tsp_runs_to(*instance, params.prune_similars, params.beam_width, fs, counts, best, nr)
                && match r {
                Some(sol) => best matches Some(b) && sol.spec_instance() == *instance && sol.spec_path()
                    == route_of(b),
                None => best is None,
            },
        r matches Some(sol) ==> sol.spec_instance() == *instance && sol.wf() && spec_valid(
            *instance,
            sol.spec_path(),
        ),
{
    let ghost prune = params.prune_similars;
    let ghost width = params.beam_width;
    let start_node = TSPNode {
        time: instance.window_of(0).0,
        target: 0,
        dist: 0,
        visited_node_hash: 1,
    };
    let shared = &instance;
    let expander = |node: &Node<TSPNode>| -> (r: Vec<TSPNode>)
        requires
            shared.wf(),
        ensures
            is_expansion(**shared, *node, r@),
        {
            expand(node, shared)
        };
    let is_valid = |node: &Node<TSPNode>| -> (r: bool)
        ensures
            r == route_accepted(**shared, *node),
        {
            let sol = make_tsp_solution_from_node(share(shared), node);
            sol.names_cities_only() && sol.is_valid()
        };
    let mut start_nodes: Vec<TSPNode> = Vec::new();
    start_nodes.push(start_node);
    let solver = BeamsearchSolver::new(start_nodes, expander, is_similar, visited_hash, is_valid, params);
    let ghost initial = solver.frontier();
    let result = solver.solve();
    let ghost e1 = expand_rel(expander);
    let ghost s1 = similar_rel(is_similar);
    let ghost b1 = bucket_rel(visited_hash);
    let ghost v1 = valid_rel(is_valid);
    proof {
        let inst = *instance;
        let (fs, counts) = choose|fs: Seq<Seq<(i64, Node<TSPNode>)>>, counts: Seq<nat>|
            #[trigger] runs_to(e1, s1, b1, v1, prune, width, initial, fs, counts, result.best, result.nr_expansions);
        assert forall|n: Node<TSPNode>, c: Seq<TSPNode>| #[trigger] e1(n, c) implies tsp_expands(inst)(n, c) by {
            let v = choose|v: Vec<TSPNode>| v@ == c && #[trigger] expander.ensures((&n,), v);
        }
        assert forall|x: Node<TSPNode>, y: Node<TSPNode>, r: bool| #[trigger] s1(x, y, r) implies tsp_similar()(x, y, r) by {}
        assert forall|x: Node<TSPNode>, k: u32| #[trigger] b1(x, k) implies tsp_bucket()(x, k) by {}
        assert forall|x: Node<TSPNode>, r: bool| #[trigger] v1(x, r) implies tsp_valid(inst)(x, r) by {}
        lemma_run_weakens(
            e1, s1, b1, v1,
            tsp_expands(inst), tsp_similar(), tsp_bucket(), tsp_valid(inst),
            prune, width, initial, fs, counts, result.best, result.nr_expansions,
        );
        assert(tsp_runs_to(inst, prune, width, fs, counts, result.best, result.nr_expansions));
    }
    match result.best {
        Some(best) => {
            let sol = make_tsp_solution_from_node(instance, &best);
            Some(sol)
        },
        None => None,
    }
}

/// The children of `p` toward the cities of `remaining` (the candidates, in
/// ascending order) whose time stays within `horizon` (the earliest closing
/// time among the candidates).
fn children_within(
    instance: &TSPInstance,
    p: TSPNode,
    remaining: &Vec<usize>,
    horizon: u64,
    vs: Ghost<Seq<usize>>,
) -> (r: Vec<TSPNode>)
    requires
        instance.wf(),
        p.target < instance.spec_len(),
        forall|m: int| 0 <= m < remaining@.len() ==> is_candidate(vs@, instance.spec_len(), #[trigger] remaining@[m] as int),
        forall|i: int, j: int| 0 <= i < j < remaining@.len() ==> (#[trigger] remaining@[i]) < (#[trigger] remaining@[j]),
        forall|d: int| is_candidate(vs@, instance.spec_len(), d) ==> remaining@.contains(d as usize),
        forall|d: int| is_candidate(vs@, instance.spec_len(), d) ==> horizon <= instance.spec_close(d),
        remaining@.len() > 0 ==> exists|m: int| 0 <= m < remaining@.len() && horizon == instance.spec_close(#[trigger] remaining@[m] as int),
    ensures
        forall|i: int|
            0 <= i < r@.len() ==> #[trigger] r@[i] == spec_child(*instance, p, r@[i].target as int)
                && is_candidate(vs@, instance.spec_len(), r@[i].target as int) && fits_horizon(*instance, p, vs@, r@[i].target as int),
        forall|i: int, j: int| 0 <= i < j < r@.len() ==> (#[trigger] r@[i]).target < (#[trigger] r@[j]).target,
        forall|c: int|
            is_candidate(vs@, instance.spec_len(), c) && fits_horizon(*instance, p, vs@, c) ==> exists|i: int|
                0 <= i < r@.len() && (#[trigger] r@[i]).target == c,
{
    let ghost inst = *instance;
    let ghost vs = vs@;
    let n = instance.len();
    let mut children: Vec<TSPNode> = Vec::new();
    let mut k: usize = 0;
    while k < remaining.len()
        invariant
            inst.wf(),
            n == inst.spec_len(),
            inst == *instance,
            p.target < n,
            k <= remaining@.len(),
            forall|m: int| 0 <= m < remaining@.len() ==> is_candidate(vs, n as nat, #[trigger] remaining@[m] as int),
            forall|i: int, j: int| 0 <= i < j < remaining@.len() ==> (#[trigger] remaining@[i]) < (#[trigger] remaining@[j]),
            forall|d: int| is_candidate(vs, n as nat, d) ==> horizon <= inst.spec_close(d),
            remaining@.len() > 0 ==> exists|m: int| 0 <= m < remaining@.len() && horizon == inst.spec_close(#[trigger] remaining@[m] as int),
            forall|i: int|
                0 <= i < children@.len() ==> #[trigger] children@[i] == spec_child(inst, p, children@[i].target as int)
                    && is_candidate(vs, n as nat, children@[i].target as int) && fits_horizon(inst, p, vs, children@[i].target as int),
            forall|i: int, m: int| 0 <= i < children@.len() && k <= m < remaining@.len() ==> (#[trigger] children@[i]).target < (#[trigger] remaining@[m]),
            forall|i: int, j: int| 0 <= i < j < children@.len() ==> (#[trigger] children@[i]).target < (#[trigger] children@[j]).target,
            forall|m: int| 0 <= m < k && fits_horizon(inst, p, vs, #[trigger] remaining@[m] as int) ==> exists|i: int|
                0 <= i < children@.len() && (#[trigger] children@[i]).target == remaining@[m],
        decreases remaining@.len() - k,
    {
        let target = remaining[k];
        let step = instance.dist_from_to(p.target, target);
        let arrival = p.time.saturating_add(step);
        let open = instance.window_of(target).0;
        let time = if arrival >= open {
            arrival
        } else {
            open
        };
        proof {
            assert(time == next_time(inst, p, target as int));
        }
        let ghost before = children@;
        if time <= horizon {
            let child = TSPNode {
                time,
                dist: p.dist.saturating_add(step),
                target,
                visited_node_hash: calc_commutative_hash(p.visited_node_hash, target),
            };
            proof {
                reveal(fits_horizon);
                assert forall|d: int| is_candidate(vs, n as nat, d) implies next_time(inst, p, target as int) <= inst.spec_close(d) by {}
                assert(fits_horizon(inst, p, vs, target as int));
            }
            children.push(child);
            proof {
                assert(children@[children@.len() - 1].target == remaining@[k as int]);
                assert forall|m: int| 0 <= m < k + 1 && fits_horizon(inst, p, vs, #[trigger] remaining@[m] as int) implies exists|i: int|
                    0 <= i < children@.len() && (#[trigger] children@[i]).target == remaining@[m] by {
                    if m < k {
                        let i = choose|i: int| 0 <= i < before.len() && (#[trigger] before[i]).target == remaining@[m];
                        assert(children@[i] == before[i]);
                    } else {
                        assert(children@[children@.len() - 1].target == remaining@[m]);
                    }
                }
                assert forall|i: int, m: int| 0 <= i < children@.len() && k + 1 <= m < remaining@.len() implies (#[trigger] children@[i]).target < (#[trigger] remaining@[m]) by {
                    if i < before.len() {
                        assert(children@[i] == before[i]);
                    } else {
                        assert(children@[i].target == remaining@[k as int]);
                    }
                }
            }
        } else {
            proof {
                let m = choose|m: int| 0 <= m < remaining@.len() && horizon == inst.spec_close(remaining@[m] as int);
                assert(is_candidate(vs, n as nat, remaining@[m] as int));
                reveal(fits_horizon);
                assert(!fits_horizon(inst, p, vs, target as int));
            }
        }
        k += 1;
    }
    proof {
        assert forall|c: int| is_candidate(vs, n as nat, c) && fits_horizon(inst, p, vs, c) implies exists|i: int|
            0 <= i < children@.len() && (#[trigger] children@[i]).target == c by {
            let m = choose|m: int| 0 <= m < remaining@.len() && remaining@[m] == c as usize;
            assert(fits_horizon(inst, p, vs, remaining@[m] as int));
        }
    }
    children
}

} // verus!
