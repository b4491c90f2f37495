//! The candidate pool: search-tree nodes with their fitness, which can be
//! sorted, truncated to the best ones and cleared of similar candidates.

use crate::parent_tree::ParentTreeNode;
use rayon::iter::{IndexedParallelIterator, IntoParallelIterator, ParallelIterator};
use std::collections::HashMap;
use vstd::prelude::*;

verus! {

/// What the engine asks of a payload: a fitness that is minimised and a level.
/// Both are integers ordered as the caller wants them compared; a float is
/// brought into this form by [`total_order_key`] on its bits. `spec_fitness`
/// names the value `fitness` returns; an implementation outside verified code
/// gives it the same body as `fitness`.
pub trait BeamsearchNode {
    /// The fitness of the payload.
    spec fn spec_fitness(&self) -> i64;

    fn fitness(&self) -> (r: i64)
        ensures
            r == self.spec_fitness(),
    ;

    fn level(&self) -> i64;
}

/// The key of an IEEE-754 double given by its bits: non-negative patterns keep
/// their value, negative ones are mirrored below zero, so that comparing keys
/// orders the doubles as a total order does (with `-0` just below `+0`, and the
/// NaNs at both ends by sign).
pub open spec fn spec_total_order_key(bits: u64) -> int {
    if bits < 0x8000_0000_0000_0000 {
        bits as int
    } else {
        -((bits - 0x8000_0000_0000_0000) as int) - 1
    }
}

/// Computes [`spec_total_order_key`]: the fitness key of a double from its bits
/// (`f64::to_bits`).
pub fn total_order_key(bits: u64) -> (r: i64)
    ensures
        r as int == spec_total_order_key(bits),
{
    if bits < 0x8000_0000_0000_0000 {
        bits as i64
    } else {
        let magnitude: u64 = bits - 0x8000_0000_0000_0000;
        -(magnitude as i64) - 1
    }
}

/// The entries are in ascending order of fitness.
pub open spec fn by_fitness<A>(s: Seq<(i64, A)>) -> bool {
    forall|i: int, j: int| 0 <= i <= j < s.len() ==> (#[trigger] s[i]).0 <= (#[trigger] s[j]).0
}

/// The entries of `s` whose fitness is `x`, in their order.
pub open spec fn with_fitness<A>(s: Seq<(i64, A)>, x: i64) -> Seq<(i64, A)> {
    s.filter(|e: (i64, A)| e.0 == x)
}

/// `after` holds the entries of `before` in ascending order of fitness, and
/// entries of equal fitness in the order they had.
pub open spec fn is_stable_sort_of<A>(before: Seq<(i64, A)>, after: Seq<(i64, A)>) -> bool {
    &&& after.to_multiset() == before.to_multiset()
    &&& by_fitness(after)
    &&& forall|x: i64| #[trigger] with_fitness(after, x) == with_fitness(before, x)
}

/// Relies on `slice::sort_by_key`, a stable sort: it reorders the vector so that
/// the keys ascend, keeps every element, and keeps elements of equal key in
/// their order.
#[verifier::external_body]
fn sort_by_fitness<A>(v: &mut Vec<(i64, A)>)
    ensures
        is_stable_sort_of(old(v)@, final(v)@),
{
    v.sort_by_key(|e| e.0);
}

/// A multiset of candidates, each with the fitness its payload reported when it
/// was added, and a flag that, when set, promises ascending fitness order.
pub struct BeamsearchCollection<T> {
    entries: Vec<(i64, ParentTreeNode<T>)>,
    sorted: bool,
}

impl<T> View for BeamsearchCollection<T> {
    type V = Seq<(i64, ParentTreeNode<T>)>;

    closed spec fn view(&self) -> Self::V {
        self.entries@
    }
}

/// `new` keeps the first `k` entries of `all` that are best, up to ties: it
/// holds `k` of them, all taken from `all`, and none of those left out is
/// fitter than any that stays.
pub open spec fn keeps_best<A>(all: Seq<(i64, A)>, new: Seq<(i64, A)>, k: nat) -> bool {
    &&& new.len() == k
    &&& new.to_multiset().subset_of(all.to_multiset())
    &&& forall|i: int, y: (i64, A)|
        0 <= i < new.len() && #[trigger] all.to_multiset().count(y) > new.to_multiset().count(y)
            ==> (#[trigger] new[i]).0 <= y.0
}

/// `after` is `before` cut to its `width` best entries: `before` itself when
/// it holds no more than `width`, else the first `width` of its stable sort.
pub open spec fn cut_to<A>(before: Seq<(i64, A)>, after: Seq<(i64, A)>, width: usize) -> bool {
    if width >= before.len() {
        after == before
    } else {
        &&& keeps_best(before, after, width as nat)
        &&& exists|s: Seq<(i64, A)>| is_stable_sort_of(before, s) && #[trigger] s.take(width as int) == after
    }
}

/// `i` is the first position of a fittest entry of `s`.
pub open spec fn is_best_index<A>(s: Seq<(i64, A)>, i: int) -> bool {
    &&& 0 <= i < s.len()
    &&& forall|j: int| 0 <= j < s.len() ==> s[i].0 <= (#[trigger] s[j]).0
    &&& forall|j: int| 0 <= j < i ==> s[i].0 < (#[trigger] s[j]).0
}

/// What sorting does to a pool: a pool marked sorted is left as it is; any
/// other is reordered by ascending fitness and marked sorted.
pub open spec fn sorts_to<T>(before: BeamsearchCollection<T>, after: BeamsearchCollection<T>) -> bool {
    &&& after.is_marked_sorted()
    &&& after.wf()
    &&& is_stable_sort_of(before@, after@)
    &&& before.is_marked_sorted() ==> after@ == before@
}

impl<T> BeamsearchCollection<T> {
    /// The flag that promises ascending fitness order.
    pub closed spec fn is_marked_sorted(&self) -> bool {
        self.sorted
    }

    /// The pool keeps its promise: when marked sorted, it is in order.
    pub closed spec fn wf(&self) -> bool {
        self.sorted ==> by_fitness(self.entries@)
    }

    /// An empty pool, marked sorted.
    pub fn new() -> (r: Self)
        ensures
            r@.len() == 0,
            r.is_marked_sorted(),
            r.wf(),
    {
        BeamsearchCollection { entries: Vec::new(), sorted: true }
    }

    /// The number of candidates.
    pub fn len(&self) -> (r: usize)
        ensures
            r == self@.len(),
    {
        self.entries.len()
    }

    /// The candidates with their fitness, in the pool's present order.
    pub fn iter(&self) -> (r: &Vec<(i64, ParentTreeNode<T>)>)
        ensures
            r@ == self@,
    {
        &self.entries
    }

    /// Puts the pool in ascending order of fitness, unless it is marked sorted
    /// already; afterwards it is marked sorted.
    pub fn sort(&mut self)
        requires
            old(self).wf(),
        ensures
            sorts_to(*old(self), *final(self)),
    {
        if self.sorted {
            return;
        }
        sort_by_fitness(&mut self.entries);
        self.sorted = true;
    }

    /// Keeps the `target_size` fittest candidates and returns how many were
    /// dropped; a pool no larger than that is left as it is.
    pub fn keep_best(&mut self, target_size: usize) -> (r: usize)
        requires
            old(self).wf(),
        ensures
            final(self).wf(),
            cut_to(old(self)@, final(self)@, target_size),
            target_size >= old(self)@.len() ==> r == 0 && *final(self) == *old(self),
            target_size < old(self)@.len() ==> {
                &&& r == old(self)@.len() - target_size
                &&& keeps_best(old(self)@, final(self)@, target_size as nat)
                &&& exists|s: Seq<(i64, ParentTreeNode<T>)>|
                    is_stable_sort_of(old(self)@, s) && #[trigger] s.take(target_size as int) == final(self)@
                &&& final(self).is_marked_sorted()
                &&& by_fitness(final(self)@)
            },
    {
        if target_size >= self.entries.len() {
            return 0;
        }
        self.sort();
        let ghost sorted_all = self.entries@;
        proof {
            broadcast use vstd::seq_lib::group_to_multiset_ensures;

            assert(sorted_all.len() == sorted_all.to_multiset().len());
            assert(old(self)@.len() == old(self)@.to_multiset().len());
        }
        let deleted = self.entries.len() - target_size;
        self.entries.truncate(target_size);
        proof {
            lemma_prefix_is_best(sorted_all, target_size as int);
            assert(sorted_all.take(target_size as int) == self@);
        }
        deleted
    }

    /// A fittest candidate: the first one when the pool is marked sorted, else
    /// the first of the fittest found by a scan. `None` exactly for an empty
    /// pool.
    pub fn get_best(&self) -> (r: Option<&ParentTreeNode<T>>)
        requires
            self.wf(),
        ensures
            r is None <==> self@.len() == 0,
            r matches Some(n) ==> exists|i: int| is_best_index(self@, i) && self@[i].1 == *n,
    {
        if self.entries.len() == 0 {
            return None;
        }
        if self.sorted {
            proof {
                assert(is_best_index(self@, 0));
            }
            return Some(&self.entries[0].1);
        }
        let mut best: usize = 0;
        let mut i: usize = 1;
        while i < self.entries.len()
            invariant
                0 <= best < i <= self@.len(),
                forall|j: int| 0 <= j < i ==> self@[best as int].0 <= (#[trigger] self@[j]).0,
                forall|j: int| 0 <= j < best ==> self@[best as int].0 < (#[trigger] self@[j]).0,
            decreases self@.len() - i,
        {
            if self.entries[i].0 < self.entries[best].0 {
                best = i;
            }
            i += 1;
        }
        proof {
            assert(is_best_index(self@, best as int));
        }
        Some(&self.entries[best].1)
    }
}

/// The elements of `s` whose flag in `keep` is set, in their order.
pub open spec fn masked<A>(s: Seq<A>, keep: Seq<bool>) -> Seq<A>
    decreases s.len(),
{
    if s.len() == 0 || keep.len() != s.len() {
        Seq::empty()
    } else {
        let rest = masked(s.drop_last(), keep.drop_last());
        if keep.last() {
            rest.push(s.last())
        } else {
            rest
        }
    }
}

/// The relation between two nodes and what `f` may answer on them.
pub open spec fn similar_rel<T, S>(f: S) -> spec_fn(ParentTreeNode<T>, ParentTreeNode<T>, bool) -> bool where
    S: Fn(&ParentTreeNode<T>, &ParentTreeNode<T>) -> bool,
 {
    |x: ParentTreeNode<T>, y: ParentTreeNode<T>, r: bool| f.ensures((&x, &y), r)
}

/// The relation between a node and a bucket `f` may give it.
pub open spec fn bucket_rel<T, H>(f: H) -> spec_fn(ParentTreeNode<T>, u32) -> bool where
    H: Fn(&ParentTreeNode<T>) -> u32,
 {
    |x: ParentTreeNode<T>, k: u32| f.ensures((&x,), k)
}

/// `after` is what pruning leaves of `before`, as witnessed by `s`, `b` and
/// `keep`: `s` is `before` in ascending order of fitness, `b[i]` is the bucket
/// that `bucket_key` gave `s[i]`, and `s[i]` stays exactly when `is_similar`
/// held it similar to no earlier entry of its bucket.
pub open spec fn pruned_by<T>(
    before: Seq<(i64, ParentTreeNode<T>)>,
    after: Seq<(i64, ParentTreeNode<T>)>,
    is_similar: spec_fn(ParentTreeNode<T>, ParentTreeNode<T>, bool) -> bool,
    bucket_key: spec_fn(ParentTreeNode<T>, u32) -> bool,
    s: Seq<(i64, ParentTreeNode<T>)>,
    b: Seq<u32>,
    keep: Seq<bool>,
) -> bool
 {
    &&& is_stable_sort_of(before, s)
    &&& b.len() == s.len()
    &&& keep.len() == s.len()
    &&& forall|i: int| 0 <= i < s.len() ==> bucket_key(s[i].1, #[trigger] b[i])
    &&& forall|i: int|
        0 <= i < s.len() && #[trigger] keep[i] ==> forall|j: int|
            0 <= j < i && b[j] == b[i] ==> is_similar(s[i].1, s[j].1, false)
    &&& forall|i: int|
        0 <= i < s.len() && !(#[trigger] keep[i]) ==> exists|j: int|
            0 <= j < i && b[j] == b[i] && is_similar(s[i].1, s[j].1, true)
    &&& after == masked(s, keep)
}

/// `after` is what pruning similar candidates leaves of `before` (see
/// [`pruned_by`]).
pub open spec fn prunes_similars<T>(
    before: Seq<(i64, ParentTreeNode<T>)>,
    after: Seq<(i64, ParentTreeNode<T>)>,
    is_similar: spec_fn(ParentTreeNode<T>, ParentTreeNode<T>, bool) -> bool,
    bucket_key: spec_fn(ParentTreeNode<T>, u32) -> bool,
) -> bool
 {
    exists|s: Seq<(i64, ParentTreeNode<T>)>, b: Seq<u32>, keep: Seq<bool>|
        #[trigger] pruned_by(before, after, is_similar, bucket_key, s, b, keep)
}

/// Relies on rayon's indexed parallel iterator: mapping `decide` over `0..n`
/// and collecting with `collect_into_vec` stores `decide(i)` at position `i`.
#[verifier::external_body]
fn decide_in_parallel<F>(n: usize, decide: &F) -> (r: Vec<bool>) where F: Fn(usize) -> bool + Sync,
    requires
        forall|i: usize| i < n ==> decide.requires((i,)),
    ensures
        r@.len() == n,
        forall|i: int| 0 <= i < n ==> decide.ensures((i as usize,), #[trigger] r@[i]),
{
    let mut out: Vec<bool> = Vec::new();
    (0..n).into_par_iter().map(decide).collect_into_vec(&mut out);
    out
}

/// `groups` maps each bucket of `buckets` to the positions holding it, in
/// ascending order.
pub open spec fn groups_positions(groups: Map<u32, Vec<usize>>, buckets: Seq<u32>) -> bool {
    &&& forall|k: u32, t: int|
        #![trigger groups[k]@[t]]
        groups.contains_key(k) && 0 <= t < groups[k]@.len() ==> groups[k]@[t] < buckets.len()
            && buckets[groups[k]@[t] as int] == k
    &&& forall|k: u32, t: int, u: int|
        #![trigger groups[k]@[t], groups[k]@[u]]
        groups.contains_key(k) && 0 <= t < u < groups[k]@.len() ==> groups[k]@[t] < groups[k]@[u]
    &&& forall|j: int|
        0 <= j < buckets.len() ==> groups.contains_key(#[trigger] buckets[j]) && groups[buckets[j]]@.contains(
            j as usize,
        )
}

/// The positions of `buckets`, grouped by bucket.
fn group_by_bucket(buckets: &Vec<u32>) -> (r: HashMap<u32, Vec<usize>>)
    ensures
        groups_positions(r@, buckets@),
{
    broadcast use vstd::std_specs::hash::group_hash_axioms;

    let mut groups: HashMap<u32, Vec<usize>> = HashMap::new();
    let mut j: usize = 0;
    while j < buckets.len()
        invariant
            j <= buckets@.len(),
            forall|k: u32, t: int|
                #![trigger groups@[k]@[t]]
                groups@.contains_key(k) && 0 <= t < groups@[k]@.len() ==> groups@[k]@[t] < j
                    && buckets@[groups@[k]@[t] as int] == k,
            forall|k: u32, t: int, u: int|
                #![trigger groups@[k]@[t], groups@[k]@[u]]
                groups@.contains_key(k) && 0 <= t < u < groups@[k]@.len() ==> groups@[k]@[t] < groups@[k]@[u],
            forall|m: int|
                0 <= m < j ==> groups@.contains_key(#[trigger] buckets@[m]) && groups@[buckets@[m]]@.contains(
                    m as usize,
                ),
        decreases buckets@.len() - j,
    {
        let key = buckets[j];
        let ghost before = groups@;
        let mut members = match groups.remove(&key) {
            Some(list) => list,
            None => Vec::new(),
        };
        proof {
            if before.contains_key(key) {
                assert(members == before[key]);
            }
        }
        let ghost old_members = members@;
        members.push(j);
        groups.insert(key, members);
        proof {
            assert forall|m: int| 0 <= m < j + 1 implies groups@.contains_key(#[trigger] buckets@[m])
                && groups@[buckets@[m]]@.contains(m as usize) by {
                if m == j {
                    assert(groups@[key]@[old_members.len() as int] == j);
                } else if buckets@[m] == key {
                    let t = choose|t: int| 0 <= t < before[key]@.len() && before[key]@[t] == m as usize;
                    assert(groups@[key]@[t] == m as usize);
                }
            }
        }
        j += 1;
    }
    groups
}

/// Whether the `i`-th entry is similar to no earlier entry of its bucket; only
/// the entries of that bucket (from `groups`) are looked at.
fn survives<T, S>(
    entries: &Vec<(i64, ParentTreeNode<T>)>,
    buckets: &Vec<u32>,
    groups: &HashMap<u32, Vec<usize>>,
    i: usize,
    is_similar: &S,
) -> (r: bool) where
    S: Fn(&ParentTreeNode<T>, &ParentTreeNode<T>) -> bool,

    requires
        i < entries@.len() == buckets@.len(),
        groups_positions(groups@, buckets@),
        forall|a: &ParentTreeNode<T>, b: &ParentTreeNode<T>| is_similar.requires((a, b)),
    ensures
        r ==> forall|j: int|
            0 <= j < i && buckets@[j] == buckets@[i as int] ==> is_similar.ensures(
                (&entries@[i as int].1, &entries@[j].1),
                false,
            ),
        !r ==> exists|j: int|
            0 <= j < i && buckets@[j] == buckets@[i as int] && is_similar.ensures(
                (&entries@[i as int].1, &entries@[j].1),
                true,
            ),
{
    broadcast use vstd::std_specs::hash::group_hash_axioms;

    let key = buckets[i];
    let ghost g = groups@;
    assert(g.contains_key(buckets@[i as int]));
    let members = match groups.get(&key) {
        Some(list) => list,
        None => {
            return true;
        },
    };
    assert(members@ == g[key]@);
    let mut t: usize = 0;
    while t < members.len() && members[t] < i
        invariant
            i < entries@.len() == buckets@.len(),
            members@ == g[key]@,
            g.contains_key(key),
            groups_positions(g, buckets@),
            key == buckets@[i as int],
            t <= members@.len(),
            forall|a: &ParentTreeNode<T>, b: &ParentTreeNode<T>| is_similar.requires((a, b)),
            forall|u: int| 0 <= u < t ==> members@[u] < i,
            forall|u: int|
                0 <= u < t ==> is_similar.ensures(
                    (&entries@[i as int].1, &entries@[#[trigger] members@[u] as int].1),
                    false,
                ),
        decreases members@.len() - t,
    {
        let j = members[t];
        assert(g[key]@[t as int] == j);
        if is_similar(&entries[i].1, &entries[j].1) {
            return false;
        }
        t += 1;
    }
    proof {
        assert forall|j: int| 0 <= j < i && buckets@[j] == buckets@[i as int] implies is_similar.ensures(
            (&entries@[i as int].1, &entries@[j].1),
            false,
        ) by {
            assert(g[buckets@[j]]@.contains(j as usize));
            let u = choose|u: int| 0 <= u < members@.len() && members@[u] == j as usize;
            if u >= t {
                assert(g[key]@[t as int] == members@[t as int]);
                if u > t {
                    assert(g[key]@[t as int] < g[key]@[u]);
                }
            }
        }
    }
    true
}

impl<T: BeamsearchNode> BeamsearchCollection<T> {
    /// Appends a candidate with the fitness its payload reports; the pool is
    /// no longer marked sorted.
    pub fn add(&mut self, node: ParentTreeNode<T>)
        requires
            old(self).wf(),
        ensures
            final(self).wf(),
            !final(self).is_marked_sorted(),
            final(self)@.len() == old(self)@.len() + 1,
            final(self)@.drop_last() == old(self)@,
            final(self)@.last().1 == node,
            final(self)@.last().0 == node.path()[0].spec_fitness(),
    {
        let fitness = node.data().fitness();
        self.entries.push((fitness, node));
        self.sorted = false;
        proof {
            assert(self@.drop_last() =~= old(self)@);
        }
    }

}

impl<T: BeamsearchNode + Send + Sync> BeamsearchCollection<T> {
    /// Drops every candidate that `is_similar` finds similar to a fitter (or
    /// equally fit, earlier) candidate of the same bucket, buckets being given
    /// by `similarity_hash`; returns how many were dropped. Afterwards the pool
    /// is sorted.
    pub fn remove_similars<S, H>(&mut self, is_similar: S, similarity_hash: H) -> (r: usize) where
        S: Fn(&ParentTreeNode<T>, &ParentTreeNode<T>) -> bool + Sync,
        H: Fn(&ParentTreeNode<T>) -> u32,

        requires
            old(self).wf(),
            forall|a: &ParentTreeNode<T>, b: &ParentTreeNode<T>| is_similar.requires((a, b)),
            forall|a: &ParentTreeNode<T>| similarity_hash.requires((a,)),
        ensures
            final(self).wf(),
            final(self).is_marked_sorted(),
            by_fitness(final(self)@),
            r == old(self)@.len() - final(self)@.len(),
            prunes_similars(old(self)@, final(self)@, similar_rel(is_similar), bucket_rel(similarity_hash)),
    {
        self.remove_similars_by(&is_similar, &similarity_hash)
    }

    /// [`Self::remove_similars`] on borrowed functions.
    pub fn remove_similars_by<S, H>(&mut self, is_similar: &S, similarity_hash: &H) -> (r: usize) where
        S: Fn(&ParentTreeNode<T>, &ParentTreeNode<T>) -> bool + Sync,
        H: Fn(&ParentTreeNode<T>) -> u32,

        requires
            old(self).wf(),
            forall|a: &ParentTreeNode<T>, b: &ParentTreeNode<T>| is_similar.requires((a, b)),
            forall|a: &ParentTreeNode<T>| similarity_hash.requires((a,)),
        ensures
            final(self).wf(),
            final(self).is_marked_sorted(),
            by_fitness(final(self)@),
            r == old(self)@.len() - final(self)@.len(),
            prunes_similars(old(self)@, final(self)@, similar_rel(*is_similar), bucket_rel(*similarity_hash)),
    {
        broadcast use vstd::seq_lib::group_to_multiset_ensures;

        self.sort();
        let n = self.entries.len();
        proof {
            assert(n == old(self)@.to_multiset().len());
        }
        let mut buckets: Vec<u32> = Vec::new();
        let mut i: usize = 0;
        while i < n
            invariant
                n == self@.len(),
                i <= n,
                buckets@.len() == i,
                forall|a: &ParentTreeNode<T>| similarity_hash.requires((a,)),
                forall|k: int| 0 <= k < i ==> similarity_hash.ensures((&self@[k].1,), #[trigger] buckets@[k]),
            decreases n - i,
        {
            let key = similarity_hash(&self.entries[i].1);
            buckets.push(key);
            i += 1;
        }
        let ghost s = self@;
        let entries = &self.entries;
        let bucket_of = &buckets;
        let groups = group_by_bucket(&buckets);
        let group_of = &groups;
        let decide = |i: usize| -> (r: bool)
            requires
                i < entries@.len(),
            ensures
                r ==> forall|j: int|
                    0 <= j < i && bucket_of@[j] == bucket_of@[i as int] ==> is_similar.ensures(
                        (&entries@[i as int].1, &entries@[j].1),
                        false,
                    ),
                !r ==> exists|j: int|
                    0 <= j < i && bucket_of@[j] == bucket_of@[i as int] && is_similar.ensures(
                        (&entries@[i as int].1, &entries@[j].1),
                        true,
                    ),
            { survives(entries, bucket_of, group_of, i, is_similar) };
        let keep_flags = decide_in_parallel(n, &decide);
        let ghost keep = keep_flags@;
        let mut kept: Vec<(i64, ParentTreeNode<T>)> = Vec::new();
        i = 0;
        while i < n
            invariant
                s == self@,
                by_fitness(s),
                n == s.len(),
                keep.len() == n,
                keep == keep_flags@,
                i <= n,
                kept@.len() <= i,
                kept@ == masked(s.take(i as int), keep.take(i as int)),
                by_fitness(kept@),
                forall|k: int, m: int| 0 <= k < kept@.len() && i <= m < n ==> (#[trigger] kept@[k]).0 <= (#[trigger] s[m]).0,
            decreases n - i,
        {
            if keep_flags[i] {
                let node = self.entries[i].1.clone();
                kept.push((self.entries[i].0, node));
            }
            proof {
                assert(s.take(i + 1).drop_last() =~= s.take(i as int));
                assert(keep.take(i + 1).drop_last() =~= keep.take(i as int));
                assert(s.take(i + 1).last() == s[i as int]);
                assert(keep.take(i + 1).last() == keep[i as int]);
            }
            i += 1;
        }
        proof {
            assert(s.take(n as int) =~= s);
            assert(keep.take(n as int) =~= keep);
            assert forall|k: int| 0 <= k < n implies bucket_of@[k] == buckets@[k] by {}
            assert forall|k: int|
                0 <= k < s.len() && #[trigger] keep[k] implies forall|j: int|
                    0 <= j < k && buckets@[j] == buckets@[k] ==> is_similar.ensures((&s[k].1, &s[j].1), false) by {
                assert(decide.ensures((k as usize,), true));
            }
            assert forall|k: int|
                0 <= k < s.len() && !(#[trigger] keep[k]) implies exists|j: int|
                    0 <= j < k && buckets@[j] == buckets@[k] && is_similar.ensures((&s[k].1, &s[j].1), true) by {
                assert(decide.ensures((k as usize,), false));
            }
        }
        let removed = n - kept.len();
        self.entries = kept;
        proof {
            assert(pruned_by(old(self)@, self@, similar_rel(*is_similar), bucket_rel(*similarity_hash), s, buckets@, keep));
        }
        removed
    }
}

/// Sorting is idempotent: sorting a pool that sorting produced leaves the same
/// order.
pub proof fn lemma_sort_idempotent<T>(
    first: BeamsearchCollection<T>,
    once: BeamsearchCollection<T>,
    twice: BeamsearchCollection<T>,
)
    requires
        sorts_to(first, once),
        sorts_to(once, twice),
    ensures
        twice@ == once@,
        twice.is_marked_sorted(),
{
}

/// An entry whose flag is set is among the masked elements.
proof fn lemma_masked_contains<A>(s: Seq<A>, keep: Seq<bool>, q: int)
    requires
        keep.len() == s.len(),
        0 <= q < s.len(),
        keep[q],
    ensures
        masked(s, keep).contains(s[q]),
    decreases s.len(),
{
    let rest = masked(s.drop_last(), keep.drop_last());
    if q == s.len() - 1 {
        assert(masked(s, keep) == rest.push(s.last()));
        assert(masked(s, keep)[rest.len() as int] == s[q]);
    } else {
        lemma_masked_contains(s.drop_last(), keep.drop_last(), q);
        let j = choose|j: int| 0 <= j < rest.len() && rest[j] == s[q];
        if keep.last() {
            assert(masked(s, keep)[j] == s[q]);
        }
    }
}

/// Among the copies of `x` in the sorted witness, one is kept, when `x` is
/// fitter than every other entry of its bucket.
proof fn lemma_some_copy_kept<T>(
    before: Seq<(i64, ParentTreeNode<T>)>,
    after: Seq<(i64, ParentTreeNode<T>)>,
    is_similar: spec_fn(ParentTreeNode<T>, ParentTreeNode<T>, bool) -> bool,
    bucket_key: spec_fn(ParentTreeNode<T>, u32) -> bool,
    s: Seq<(i64, ParentTreeNode<T>)>,
    b: Seq<u32>,
    keep: Seq<bool>,
    x: (i64, ParentTreeNode<T>),
    k: u32,
    p: int,
)

    requires
        pruned_by(before, after, is_similar, bucket_key, s, b, keep),
        forall|n: ParentTreeNode<T>, k1: u32, k2: u32|
            #[trigger] bucket_key(n, k1) && #[trigger] bucket_key(n, k2) ==> k1 == k2,
        bucket_key(x.1, k),
        forall|y: (i64, ParentTreeNode<T>)|
            #[trigger] s.contains(y) && y != x && bucket_key(y.1, k) ==> x.0 < y.0,
        0 <= p < s.len(),
        s[p] == x,
    ensures
        exists|q: int| 0 <= q < s.len() && s[q] == x && keep[q],
    decreases p,
{
    if !keep[p] {
        let j = choose|j: int|
            0 <= j < p && b[j] == b[p] && is_similar(s[p].1, s[j].1, true);
        assert(bucket_key(s[p].1, b[p]));
        assert(b[p] == k);
        assert(bucket_key(s[j].1, b[j]));
        assert(s.contains(s[j]));
        assert(s[j].0 <= s[p].0);
        lemma_some_copy_kept(before, after, is_similar, bucket_key, s, b, keep, x, k, j);
    } else {
        assert(s[p] == x && keep[p]);
    }
}

/// Pruning never drops a candidate that is strictly fitter than every other
/// candidate of its bucket (buckets being given by a deterministic
/// `bucket_key`).
pub proof fn lemma_bucket_minimum_survives<T>(
    before: Seq<(i64, ParentTreeNode<T>)>,
    after: Seq<(i64, ParentTreeNode<T>)>,
    is_similar: spec_fn(ParentTreeNode<T>, ParentTreeNode<T>, bool) -> bool,
    bucket_key: spec_fn(ParentTreeNode<T>, u32) -> bool,
    x: (i64, ParentTreeNode<T>),
    k: u32,
)

    requires
        prunes_similars(before, after, is_similar, bucket_key),
        forall|n: ParentTreeNode<T>, k1: u32, k2: u32|
            #[trigger] bucket_key(n, k1) && #[trigger] bucket_key(n, k2) ==> k1 == k2,
        before.contains(x),
        bucket_key(x.1, k),
        forall|y: (i64, ParentTreeNode<T>)|
            #[trigger] before.contains(y) && y != x && bucket_key(y.1, k) ==> x.0 < y.0,
    ensures
        after.contains(x),
{
    broadcast use vstd::seq_lib::group_to_multiset_ensures;

    let (s, b, keep) = choose|s: Seq<(i64, ParentTreeNode<T>)>, b: Seq<u32>, keep: Seq<bool>|
        pruned_by(before, after, is_similar, bucket_key, s, b, keep);
    assert(pruned_by(before, after, is_similar, bucket_key, s, b, keep));
    assert forall|y: (i64, ParentTreeNode<T>)|
        #[trigger] s.contains(y) && y != x && bucket_key(y.1, k) implies x.0 < y.0 by {
        assert(s.to_multiset().count(y) > 0);
        assert(before.contains(y));
    }
    assert(before.to_multiset().count(x) > 0);
    assert(s.contains(x));
    let p = choose|p: int| 0 <= p < s.len() && s[p] == x;
    lemma_some_copy_kept(before, after, is_similar, bucket_key, s, b, keep, x, k, p);
    let q = choose|q: int| 0 <= q < s.len() && s[q] == x && keep[q];
    lemma_masked_contains(s, keep, q);
}

/// Pruning stated over relations stays true over any relations that hold
/// wherever these do.
pub proof fn lemma_prunes_weakens<T>(
    before: Seq<(i64, ParentTreeNode<T>)>,
    after: Seq<(i64, ParentTreeNode<T>)>,
    similar1: spec_fn(ParentTreeNode<T>, ParentTreeNode<T>, bool) -> bool,
    bucket1: spec_fn(ParentTreeNode<T>, u32) -> bool,
    similar2: spec_fn(ParentTreeNode<T>, ParentTreeNode<T>, bool) -> bool,
    bucket2: spec_fn(ParentTreeNode<T>, u32) -> bool,
)
    requires
        prunes_similars(before, after, similar1, bucket1),
        forall|x: ParentTreeNode<T>, y: ParentTreeNode<T>, r: bool| #[trigger] similar1(x, y, r) ==> similar2(x, y, r),
        forall|x: ParentTreeNode<T>, k: u32| #[trigger] bucket1(x, k) ==> bucket2(x, k),
    ensures
        prunes_similars(before, after, similar2, bucket2),
{
    let (s, b, keep) = choose|s: Seq<(i64, ParentTreeNode<T>)>, b: Seq<u32>, keep: Seq<bool>|
        pruned_by(before, after, similar1, bucket1, s, b, keep);
    assert(pruned_by(before, after, similar1, bucket1, s, b, keep));
    assert forall|i: int| 0 <= i < s.len() && !(#[trigger] keep[i]) implies exists|j: int|
        0 <= j < i && b[j] == b[i] && similar2(s[i].1, s[j].1, true) by {
        let j = choose|j: int| 0 <= j < i && b[j] == b[i] && similar1(s[i].1, s[j].1, true);
        assert(similar2(s[i].1, s[j].1, true));
    }
    assert forall|i: int| 0 <= i < s.len() && #[trigger] keep[i] implies forall|j: int|
        0 <= j < i && b[j] == b[i] ==> similar2(s[i].1, s[j].1, false) by {
        assert forall|j: int| 0 <= j < i && b[j] == b[i] implies similar2(s[i].1, s[j].1, false) by {
            assert(similar1(s[i].1, s[j].1, false));
        }
    }
    assert forall|i: int| 0 <= i < s.len() implies bucket2(s[i].1, #[trigger] b[i]) by {
        assert(bucket1(s[i].1, b[i]));
    }
    assert(pruned_by(before, after, similar2, bucket2, s, b, keep));
}

/// The first `k` entries of a sorted sequence are the `k` best of it.
proof fn lemma_prefix_is_best<A>(s: Seq<(i64, A)>, k: int)
    requires
        by_fitness(s),
        0 <= k <= s.len(),
    ensures
        keeps_best(s, s.take(k), k as nat),
{
    broadcast use vstd::seq_lib::group_to_multiset_ensures;

    let front = s.take(k);
    let back = s.skip(k);
    assert(s == front + back);
    vstd::seq_lib::lemma_multiset_commutative(front, back);
    assert forall|i: int, y: (i64, A)|
        0 <= i < front.len() && #[trigger] s.to_multiset().count(y) > front.to_multiset().count(y)
            implies (#[trigger] front[i]).0 <= y.0 by {
        assert(back.to_multiset().count(y) > 0);
        assert(back.contains(y));
        let j = choose|j: int| 0 <= j < back.len() && back[j] == y;
        assert(s[k + j] == y);
        assert(s[i] == front[i]);
    }
}

impl<T> Default for BeamsearchCollection<T> {
    /// An empty pool, marked sorted.
    fn default() -> (r: Self)
        ensures
            r@.len() == 0,
            r.is_marked_sorted(),
            r.wf(),
    {
        Self::new()
    }
}

} // verus!
