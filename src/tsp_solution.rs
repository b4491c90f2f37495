//! A round trip (or a beginning of one) through an instance: its cost in time
//! and distance, and whether it respects every time window.

use crate::tsp_instance::{TSPInstance, MAX_QUANTITY};
use std::sync::Arc;
use vstd::prelude::*;

verus! {

/// The longest path a solution may hold.
pub const MAX_PATH_LEN: usize = 0x40_0000;

/// A time and a distance.
#[derive(Clone, Copy, Debug, PartialEq, Eq, Structural)]
pub struct TimeDist {
    pub time: u64,
    pub dist: u64,
}

/// `x + y`, or `u64::MAX` where that would not fit.
pub open spec fn sat_add(x: u64, y: u64) -> u64 {
    if x + y > u64::MAX {
        u64::MAX
    } else {
        (x + y) as u64
    }
}

impl std::ops::Add for TimeDist {
    type Output = Self;

    /// Adds the times and the distances, each saturating at `u64::MAX`.
    fn add(self, rhs: Self) -> Self {
        TimeDist { time: self.time.saturating_add(rhs.time), dist: self.dist.saturating_add(rhs.dist) }
    }
}

impl vstd::std_specs::ops::AddSpecImpl for TimeDist {
    open spec fn obeys_add_spec() -> bool {
        true
    }

    open spec fn add_req(self, rhs: TimeDist) -> bool {
        true
    }

    open spec fn add_spec(self, rhs: TimeDist) -> TimeDist {
        TimeDist { time: sat_add(self.time, rhs.time), dist: sat_add(self.dist, rhs.dist) }
    }
}

/// The larger of two integers.
pub open spec fn max_int(a: int, b: int) -> int {
    if a >= b {
        a
    } else {
        b
    }
}

/// The time at which `path[k]` is left when `path[0]` is left at `t0`: each
/// step adds the distance, and an arrival before the next city's window opens
/// waits for it.
pub open spec fn timeline(inst: TSPInstance, path: Seq<usize>, t0: int, k: int) -> int
    decreases k,
{
    if k <= 0 {
        t0
    } else {
        max_int(
            timeline(inst, path, t0, k - 1) + inst.spec_dist(path[k - 1] as int, path[k] as int),
            inst.spec_open(path[k] as int),
        )
    }
}

/// The distance covered from `path[0]` to `path[k]`.
pub open spec fn path_dist(inst: TSPInstance, path: Seq<usize>, k: int) -> int
    decreases k,
{
    if k <= 0 {
        0
    } else {
        path_dist(inst, path, k - 1) + inst.spec_dist(path[k - 1] as int, path[k] as int)
    }
}

/// Starting when the first city's window opens, every city is reached no later
/// than its window closes.
pub open spec fn arrives_in_time(inst: TSPInstance, path: Seq<usize>) -> bool {
    forall|k: int|
        1 <= k < path.len() ==> #[trigger] timeline(inst, path, inst.spec_open(path[0] as int), k - 1)
            + inst.spec_dist(path[k - 1] as int, path[k] as int) <= inst.spec_close(path[k] as int)
}

/// No city occurs twice, the last position aside.
pub open spec fn no_early_repeat(path: Seq<usize>) -> bool {
    forall|j: int, k: int| 0 <= j < k < path.len() - 1 ==> #[trigger] path[j] != #[trigger] path[k]
}

/// A path as long as a round trip ends where it started.
pub open spec fn closes_if_complete(inst: TSPInstance, path: Seq<usize>) -> bool {
    path.len() == inst.spec_len() + 1 ==> path.last() == path[0]
}

/// `path` may be the beginning of a valid round trip.
pub open spec fn spec_valid_subsolution(inst: TSPInstance, path: Seq<usize>) -> bool {
    path.len() == 0 || (arrives_in_time(inst, path) && no_early_repeat(path) && closes_if_complete(
        inst,
        path,
    ))
}

/// The length of a complete round trip: one more than the number of cities, or
/// one for a single city.
pub open spec fn round_trip_len(inst: TSPInstance) -> int {
    inst.spec_len() + if inst.spec_len() == 1 {
        0int
    } else {
        1int
    }
}

/// `path` is a complete, valid round trip.
pub open spec fn spec_valid(inst: TSPInstance, path: Seq<usize>) -> bool {
    path.len() == round_trip_len(inst) && spec_valid_subsolution(inst, path)
}

/// The timeline grows by at most the largest quantity per step.
proof fn lemma_timeline_bound(inst: TSPInstance, path: Seq<usize>, t0: int, k: int)
    requires
        inst.wf(),
        0 <= t0 <= MAX_QUANTITY,
        0 <= k < path.len(),
        forall|i: int| 0 <= i < path.len() ==> (#[trigger] path[i]) < inst.spec_len(),
    ensures
        0 <= timeline(inst, path, t0, k) <= (k + 1) * MAX_QUANTITY,
        0 <= path_dist(inst, path, k) <= k * MAX_QUANTITY,
    decreases k,
{
    reveal_with_fuel(timeline, 1);
    if k > 0 {
        lemma_timeline_bound(inst, path, t0, k - 1);
        inst.lemma_bounds(path[k - 1] as int, path[k] as int);
        assert((k + 1) * MAX_QUANTITY == k * MAX_QUANTITY + MAX_QUANTITY) by (nonlinear_arith);
        assert(k * MAX_QUANTITY == (k - 1) * MAX_QUANTITY + MAX_QUANTITY) by (nonlinear_arith);
    }
}

/// A path through an instance, with the instance it belongs to.
pub struct TSPSolution {
    instance: Arc<TSPInstance>,
    path: Vec<usize>,
}

impl TSPSolution {
    /// The instance the path runs through.
    pub closed spec fn spec_instance(&self) -> TSPInstance {
        *self.instance
    }

    /// The cities of the path, in order.
    pub closed spec fn spec_path(&self) -> Seq<usize> {
        self.path@
    }

    /// The instance is well formed and the path names its cities only.
    pub open spec fn wf(&self) -> bool {
        &&& self.spec_instance().wf()
        &&& self.spec_path().len() <= MAX_PATH_LEN
        &&& forall|i: int|
            0 <= i < self.spec_path().len() ==> (#[trigger] self.spec_path()[i])
                < self.spec_instance().spec_len()
    }

    /// A solution following `path` through `instance`.
    pub fn new(instance: Arc<TSPInstance>, path: Vec<usize>) -> (r: Self)
        ensures
            r.spec_instance() == *instance,
            r.spec_path() == path@,
    {
        TSPSolution { instance, path }
    }

    /// Whether the path is short enough and names cities of the instance only,
    /// which is what the other methods ask of it.
    pub fn names_cities_only(&self) -> (r: bool)
        requires
            self.spec_instance().wf(),
        ensures
            r == self.wf(),
    {
        let n = self.instance.len();
        if self.path.len() > MAX_PATH_LEN {
            return false;
        }
        let mut i: usize = 0;
        while i < self.path.len()
            invariant
                n == self.spec_instance().spec_len(),
                i <= self.path@.len(),
                forall|k: int| 0 <= k < i ==> (#[trigger] self.path@[k]) < n,
            decreases self.path@.len() - i,
        {
            if self.path[i] >= n {
                assert(self.spec_path()[i as int] >= self.spec_instance().spec_len());
                return false;
            }
            i += 1;
        }
        true
    }

    /// The instance.
    pub fn get_instance(&self) -> (r: &Arc<TSPInstance>)
        ensures
            **r == self.spec_instance(),
    {
        &self.instance
    }

    /// The path.
    pub fn get_path(&self) -> (r: &Vec<usize>)
        ensures
            r@ == self.spec_path(),
    {
        &self.path
    }

    /// For each step of the path, the time it takes (travel plus any wait for
    /// the window to open, starting the clock at zero) and the distance.
    pub fn get_time_distance_diffs(&self) -> (r: Vec<TimeDist>)
        requires
            self.wf(),
        ensures
            r@.len() == if self.spec_path().len() == 0 {
                0
            } else {
                self.spec_path().len() - 1
            },
            forall|k: int|
                0 <= k < r@.len() ==> (#[trigger] r@[k]).time == timeline(
                    self.spec_instance(),
                    self.spec_path(),
                    0,
                    k + 1,
                ) - timeline(self.spec_instance(), self.spec_path(), 0, k) && r@[k].dist
                    == self.spec_instance().spec_dist(
                    self.spec_path()[k] as int,
                    self.spec_path()[k + 1] as int,
                ),
    {
        let ghost inst = self.spec_instance();
        let ghost path = self.path@;
        let mut out: Vec<TimeDist> = Vec::new();
        if self.path.len() == 0 {
            return out;
        }
        let mut time: u64 = 0;
        let mut k: usize = 1;
        while k < self.path.len()
            invariant
                self.wf(),
                inst == self.spec_instance(),
                path == self.spec_path(),
                1 <= k <= path.len(),
                out@.len() == k - 1,
                time == timeline(inst, path, 0, k - 1),
                forall|m: int|
                    0 <= m < out@.len() ==> (#[trigger] out@[m]).time == timeline(inst, path, 0, m + 1)
                        - timeline(inst, path, 0, m) && out@[m].dist == inst.spec_dist(
                        path[m] as int,
                        path[m + 1] as int,
                    ),
            decreases path.len() - k,
        {
            let start = self.path[k - 1];
            let end = self.path[k];
            proof {
                lemma_timeline_bound(inst, path, 0, k - 1);
                lemma_timeline_bound(inst, path, 0, k as int);
                inst.lemma_bounds(start as int, end as int);
                assert(k * MAX_QUANTITY <= MAX_PATH_LEN * MAX_QUANTITY) by (nonlinear_arith)
                    requires
                        k <= MAX_PATH_LEN,
                ;
            }
            let next_distance = self.instance.dist_from_to(start, end);
            let arrival = time + next_distance;
            let open = self.instance.window_of(end).0;
            let next_time = if arrival >= open {
                arrival
            } else {
                open
            };
            out.push(TimeDist { time: next_time - time, dist: next_distance });
            time = next_time;
            k += 1;
        }
        out
    }

    /// The whole cost: the time the first city's window opens plus every
    /// step's time, and the total distance.
    pub fn get_time_distance(&self) -> (r: TimeDist)
        requires
            self.wf(),
            self.spec_path().len() > 0,
        ensures
            r.time == self.spec_instance().spec_open(self.spec_path()[0] as int) + timeline(
                self.spec_instance(),
                self.spec_path(),
                0,
                self.spec_path().len() - 1,
            ),
            r.dist == path_dist(self.spec_instance(), self.spec_path(), self.spec_path().len() - 1),
    {
        let ghost inst = self.spec_instance();
        let ghost path = self.path@;
        let diffs = self.get_time_distance_diffs();
        let mut time: u64 = self.instance.window_of(self.path[0]).0;
        let mut dist: u64 = 0;
        let mut k: usize = 0;
        while k < diffs.len()
            invariant
                self.wf(),
                inst == self.spec_instance(),
                path == self.spec_path(),
                diffs@.len() == path.len() - 1,
                k <= diffs@.len(),
                time == inst.spec_open(path[0] as int) + timeline(inst, path, 0, k as int),
                dist == path_dist(inst, path, k as int),
                forall|m: int|
                    0 <= m < diffs@.len() ==> (#[trigger] diffs@[m]).time == timeline(inst, path, 0, m + 1)
                        - timeline(inst, path, 0, m) && diffs@[m].dist == inst.spec_dist(
                        path[m] as int,
                        path[m + 1] as int,
                    ),
            decreases diffs@.len() - k,
        {
            proof {
                lemma_timeline_bound(inst, path, 0, k + 1);
                inst.lemma_bounds(path[0] as int, path[0] as int);
                assert((k + 2) * MAX_QUANTITY <= (MAX_PATH_LEN + 1) * MAX_QUANTITY) by (nonlinear_arith)
                    requires
                        k + 1 <= MAX_PATH_LEN,
                ;
            }
            time = time + diffs[k].time;
            dist = dist + diffs[k].dist;
            k += 1;
        }
        TimeDist { time, dist }
    }

    /// Whether the path is a complete round trip that respects every window.
    pub fn is_valid(&self) -> (r: bool)
        requires
            self.wf(),
        ensures
            r == spec_valid(self.spec_instance(), self.spec_path()),
    {
        let n = self.instance.len();
        let expected: usize = if n == 1 {
            n
        } else {
            n + 1
        };
        self.path.len() == expected && self.is_valid_subsolution()
    }

    /// Whether the path may begin a valid round trip: it reaches every city
    /// before the city's window closes (waiting when early), visits no city
    /// twice before its last step, and, when as long as a round trip, ends
    /// where it started.
    pub fn is_valid_subsolution(&self) -> (r: bool)
        requires
            self.wf(),
        ensures
            r == spec_valid_subsolution(self.spec_instance(), self.spec_path()),
    {
        let ghost inst = self.spec_instance();
        let ghost path = self.path@;
        let len = self.path.len();
        if len == 0 {
            return true;
        }
        let n = self.instance.len();
        let mut last: usize = self.path[0];
        let mut time: u64 = self.instance.window_of(last).0;
        let ghost t0 = time as int;
        let mut visited: Vec<bool> = vec![false; n];
        visited.set(last, true);
        let mut k: usize = 1;
        while k < len
            invariant
                self.wf(),
                inst == self.spec_instance(),
                path == self.spec_path(),
                len == path.len(),
                n == inst.spec_len(),
                1 <= k <= len,
                t0 == inst.spec_open(path[0] as int),
                last == path[k - 1],
                time == timeline(inst, path, t0, k - 1),
                visited@.len() == n,
                forall|c: int| 0 <= c < n ==> (#[trigger] visited@[c] <==> exists|j: int| 0 <= j < k && path[j] == c),
                forall|m: int|
                    1 <= m < k ==> #[trigger] timeline(inst, path, t0, m - 1) + inst.spec_dist(
                        path[m - 1] as int,
                        path[m] as int,
                    ) <= inst.spec_close(path[m] as int),
                forall|j: int, m: int| 0 <= j < m < k && m < len - 1 ==> #[trigger] path[j] != #[trigger] path[m],
            decreases len - k,
        {
            let node = self.path[k];
            proof {
                inst.lemma_bounds(path[0] as int, path[0] as int);
                lemma_timeline_bound(inst, path, t0, k - 1);
                inst.lemma_bounds(last as int, node as int);
                assert(k * MAX_QUANTITY <= MAX_PATH_LEN * MAX_QUANTITY) by (nonlinear_arith)
                    requires
                        k <= MAX_PATH_LEN,
                ;
            }
            if visited[node] && k < len - 1 {
                proof {
                    let j = choose|j: int| 0 <= j < k && path[j] == node;
                    assert(path[j] == path[k as int]);
                    assert(!no_early_repeat(path));
                }
                return false;
            }
            visited.set(node, true);
            let arrival = time + self.instance.dist_from_to(last, node);
            let (open, close) = self.instance.window_of(node);
            if arrival > close {
                proof {
                    assert(timeline(inst, path, t0, k - 1) + inst.spec_dist(path[k - 1] as int, path[k as int] as int)
                        > inst.spec_close(path[k as int] as int));
                    assert(!arrives_in_time(inst, path));
                }
                return false;
            }
            time = if arrival >= open {
                arrival
            } else {
                open
            };
            last = node;
            proof {
                assert forall|c: int| 0 <= c < n implies (#[trigger] visited@[c] <==> exists|j: int|
                    0 <= j < k + 1 && path[j] == c) by {
                    if c == node {
                        assert(path[k as int] == c);
                    }
                }
            }
            k += 1;
        }
        if len == n + 1 && self.path[len - 1] != self.path[0] {
            return false;
        }
        true
    }
}

} // verus!
