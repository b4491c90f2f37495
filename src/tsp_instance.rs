//! A travelling-salesman instance with time windows: a distance matrix and, for
//! each city, the earliest and latest time at which it may be visited. Times and
//! distances are whole numbers in a unit of the caller's choice.

use vstd::prelude::*;

verus! {

/// The largest distance or time-window bound an instance may hold.
pub const MAX_QUANTITY: u64 = 0x100_0000_0000;

/// The largest number of cities an instance may have.
pub const MAX_CITIES: usize = 0x10_0000;

/// The cities, their pairwise distances and their time windows.
pub struct TSPInstance {
    num_cities: usize,
    distances: Vec<Vec<u64>>,
    time_windows: Vec<(u64, u64)>,
}

impl TSPInstance {
    /// The number of cities.
    pub closed spec fn spec_len(&self) -> nat {
        self.num_cities as nat
    }

    /// The distance from city `from` to city `to`.
    pub closed spec fn spec_dist(&self, from: int, to: int) -> int {
        self.distances@[from]@[to] as int
    }

    /// The earliest time at which city `c` may be visited.
    pub closed spec fn spec_open(&self, c: int) -> int {
        self.time_windows@[c].0 as int
    }

    /// The latest time at which city `c` may be visited.
    pub closed spec fn spec_close(&self, c: int) -> int {
        self.time_windows@[c].1 as int
    }

    /// The matrix is square over the cities, there is one window per city, and
    /// every number is within the bounds.
    pub closed spec fn wf(&self) -> bool {
        &&& self.num_cities <= MAX_CITIES
        &&& self.distances@.len() == self.num_cities
        &&& self.time_windows@.len() == self.num_cities
        &&& forall|i: int| 0 <= i < self.num_cities ==> (#[trigger] self.distances@[i])@.len() == self.num_cities
        &&& forall|i: int, j: int|
            0 <= i < self.num_cities && 0 <= j < self.num_cities ==> #[trigger] self.distances@[i]@[j]
                <= MAX_QUANTITY
        &&& forall|i: int|
            0 <= i < self.num_cities ==> (#[trigger] self.time_windows@[i]).0 <= MAX_QUANTITY
                && self.time_windows@[i].1 <= MAX_QUANTITY
    }

    /// What `wf` says of an instance, stated over its parts.
    pub open spec fn well_formed_parts(
        num_cities: usize,
        distances: Seq<Vec<u64>>,
        time_windows: Seq<(u64, u64)>,
    ) -> bool {
        &&& num_cities <= MAX_CITIES
        &&& distances.len() == num_cities
        &&& time_windows.len() == num_cities
        &&& forall|i: int| 0 <= i < num_cities ==> (#[trigger] distances[i])@.len() == num_cities
        &&& forall|i: int, j: int|
            0 <= i < num_cities && 0 <= j < num_cities ==> #[trigger] distances[i]@[j] <= MAX_QUANTITY
        &&& forall|i: int|
            0 <= i < num_cities ==> (#[trigger] time_windows[i]).0 <= MAX_QUANTITY && time_windows[i].1
                <= MAX_QUANTITY
    }

    /// Every quantity of a well-formed instance is within the bound.
    pub proof fn lemma_bounds(&self, i: int, j: int)
        requires
            self.wf(),
            0 <= i < self.spec_len(),
            0 <= j < self.spec_len(),
        ensures
            0 <= self.spec_dist(i, j) <= MAX_QUANTITY,
            0 <= self.spec_open(j) <= MAX_QUANTITY,
            0 <= self.spec_close(j) <= MAX_QUANTITY,
    {
        assert(self.distances@[i]@[j] <= MAX_QUANTITY);
        assert(self.time_windows@[j].0 <= MAX_QUANTITY);
    }

    /// An instance of `num_cities` cities.
    pub fn new(num_cities: usize, distances: Vec<Vec<u64>>, time_windows: Vec<(u64, u64)>) -> (r: Self)
        requires
            Self::well_formed_parts(num_cities, distances@, time_windows@),
        ensures
            r.wf(),
            r.spec_len() == num_cities,
            forall|i: int, j: int|
                0 <= i < num_cities && 0 <= j < num_cities ==> r.spec_dist(i, j) == distances@[i]@[j],
            forall|i: int|
                0 <= i < num_cities ==> r.spec_open(i) == time_windows@[i].0 && r.spec_close(i)
                    == time_windows@[i].1,
    {
        TSPInstance { num_cities, distances, time_windows }
    }

    /// Whether `num_cities`, `distances` and `time_windows` make an instance:
    /// the shapes agree and the numbers are within the bounds.
    pub fn check_parts(num_cities: usize, distances: &Vec<Vec<u64>>, time_windows: &Vec<(u64, u64)>) -> (r: bool)
        ensures
            r == Self::well_formed_parts(num_cities, distances@, time_windows@),
    {
        if num_cities > MAX_CITIES || distances.len() != num_cities || time_windows.len() != num_cities {
            return false;
        }
        let mut i: usize = 0;
        while i < num_cities
            invariant
                i <= num_cities == distances@.len() == time_windows@.len(),
                forall|k: int| 0 <= k < i ==> (#[trigger] distances@[k])@.len() == num_cities,
                forall|k: int, j: int|
                    0 <= k < i && 0 <= j < num_cities ==> #[trigger] distances@[k]@[j] <= MAX_QUANTITY,
                forall|k: int|
                    0 <= k < i ==> (#[trigger] time_windows@[k]).0 <= MAX_QUANTITY && time_windows@[k].1
                        <= MAX_QUANTITY,
            decreases num_cities - i,
        {
            let row = &distances[i];
            if row.len() != num_cities {
                assert((distances@[i as int])@.len() != num_cities);
                return false;
            }
            let mut j: usize = 0;
            while j < num_cities
                invariant
                    j <= num_cities == row@.len(),
                    i < num_cities == distances@.len(),
                    row == distances@[i as int],
                    forall|m: int| 0 <= m < j ==> #[trigger] row@[m] <= MAX_QUANTITY,
                decreases num_cities - j,
            {
                if row[j] > MAX_QUANTITY {
                    assert(distances@[i as int]@[j as int] > MAX_QUANTITY);
                    return false;
                }
                j += 1;
            }
            if time_windows[i].0 > MAX_QUANTITY || time_windows[i].1 > MAX_QUANTITY {
                assert(time_windows@[i as int].0 > MAX_QUANTITY || time_windows@[i as int].1 > MAX_QUANTITY);
                return false;
            }
            i += 1;
        }
        true
    }

    /// The number of cities.
    pub fn len(&self) -> (r: usize)
        ensures
            r == self.spec_len(),
            self.wf() ==> r <= MAX_CITIES,
    {
        self.num_cities
    }

    /// The distance from city `from` to city `to`.
    pub fn dist_from_to(&self, from: usize, to: usize) -> (r: u64)
        requires
            self.wf(),
            from < self.spec_len(),
            to < self.spec_len(),
        ensures
            r == self.spec_dist(from as int, to as int),
            r <= MAX_QUANTITY,
    {
        self.distances[from][to]
    }

    /// The time window of city `node`: earliest and latest visit.
    pub fn window_of(&self, node: usize) -> (r: (u64, u64))
        requires
            self.wf(),
            node < self.spec_len(),
        ensures
            r.0 == self.spec_open(node as int),
            r.1 == self.spec_close(node as int),
            r.0 <= MAX_QUANTITY,
            r.1 <= MAX_QUANTITY,
    {
        self.time_windows[node]
    }

    /// Whether `time` lies in the time window of city `node`, bounds included.
    pub fn window_of_contains(&self, node: usize, time: u64) -> (r: bool)
        requires
            self.wf(),
            node < self.spec_len(),
        ensures
            r == (self.spec_open(node as int) <= time <= self.spec_close(node as int)),
    {
        let (start, end) = self.window_of(node);
        start <= time && time <= end
    }
}

} // verus!
