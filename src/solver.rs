//! The generational beam search: expand every candidate of the frontier, prune
//! similar ones if asked, keep the best, until a generation yields nothing.

use crate::collection::{
    bucket_rel, cut_to, is_best_index, lemma_prunes_weakens, prunes_similars, similar_rel, BeamsearchCollection, BeamsearchNode,
};
use crate::parent_tree::ParentTreeNode;
use rayon::iter::{IndexedParallelIterator, IntoParallelRefIterator, ParallelIterator};
use vstd::prelude::*;

verus! {

/// A node of the search tree.
pub type Node<T> = ParentTreeNode<T>;

/// How the search runs.
pub struct Params {
    /// How many candidates survive each generation.
    pub beam_width: usize,
    /// Whether similar candidates are pruned after each expansion.
    pub prune_similars: bool,
}

/// What a search returns.
pub struct SolverResult<T> {
    /// The fittest candidate of the last frontier, if there is one and it is a
    /// valid solution.
    pub best: Option<Node<T>>,
    /// How many children all generations produced together (saturating at
    /// `usize::MAX`).
    pub nr_expansions: usize,
}

/// A similarity that holds of no pair: pruning then keeps everything.
pub fn is_never_similar<T>(_a: &Node<T>, _b: &Node<T>) -> (r: bool)
    ensures
        !r,
{
    false
}

/// The child payloads that `expander` gives `node`.
fn expand_node<T, F>(expander: &F, node: &Node<T>) -> (r: Vec<T>) where F: Fn(&Node<T>) -> Vec<T>,
    requires
        expander.requires((node,)),
    ensures
        expander.ensures((node,), r),
{
    expander(node)
}

/// Relies on rayon's indexed parallel iterator: `map` then `collect_into_vec`
/// applies [`expand_node`] to every entry's node and stores the results in the
/// order of the entries.
#[verifier::external_body]
fn expand_in_parallel<T, F>(entries: &Vec<(i64, Node<T>)>, expander: &F) -> (r: Vec<Vec<T>>) where
    T: Send + Sync,
    F: Fn(&Node<T>) -> Vec<T> + Sync,

    requires
        forall|i: int| 0 <= i < entries@.len() ==> expander.requires((&entries@[i].1,)),
    ensures
        r@.len() == entries@.len(),
        forall|i: int| 0 <= i < entries@.len() ==> expander.ensures((&entries@[i].1,), #[trigger] r@[i]),
{
    let mut out: Vec<Vec<T>> = Vec::new();
    entries.par_iter().map(|e| expand_node(expander, &e.1)).collect_into_vec(&mut out);
    out
}

/// The nodes of a pool's entries, in order.
pub open spec fn nodes_of<T>(s: Seq<(i64, Node<T>)>) -> Seq<Node<T>> {
    s.map_values(|e: (i64, Node<T>)| e.1)
}

/// `f` gives each node one list of child payloads at most.
pub open spec fn is_deterministic<T, F>(f: F) -> bool where F: Fn(&Node<T>) -> Vec<T> {
    forall|n: &Node<T>, c1: Vec<T>, c2: Vec<T>|
        #[trigger] f.ensures((n,), c1) && #[trigger] f.ensures((n,), c2) ==> c1@ == c2@
}

/// The child payloads that `f` gives `n`.
pub open spec fn children_payloads<T, F>(f: F, n: Node<T>) -> Seq<T> where F: Fn(&Node<T>) -> Vec<T> {
    (choose|c: Vec<T>| f.ensures((&n,), c))@
}

/// The children of `parent` holding `payloads`, in order.
pub open spec fn child_nodes<T>(parent: Node<T>, payloads: Seq<T>) -> Seq<Node<T>> {
    payloads.map_values(|p: T| ParentTreeNode::<T>::spec_child(parent, p))
}

/// All children of the nodes of `frontier`, node by node.
pub open spec fn next_generation<T, F>(f: F, frontier: Seq<Node<T>>) -> Seq<Node<T>> where
    F: Fn(&Node<T>) -> Vec<T>,
    decreases frontier.len(),
{
    if frontier.len() == 0 {
        Seq::empty()
    } else {
        next_generation(f, frontier.drop_last()) + child_nodes(
            frontier.last(),
            children_payloads(f, frontier.last()),
        )
    }
}

/// The `k`-th generation of the whole expansion tree grown from `initial`.
pub open spec fn generation<T, F>(f: F, initial: Seq<Node<T>>, k: nat) -> Seq<Node<T>> where
    F: Fn(&Node<T>) -> Vec<T>,
    decreases k,
{
    if k == 0 {
        initial
    } else {
        next_generation(f, generation(f, initial, (k - 1) as nat))
    }
}

/// The number of edges in the first `k` generations of the expansion tree.
pub open spec fn expansions_until<T, F>(f: F, initial: Seq<Node<T>>, k: nat) -> int where
    F: Fn(&Node<T>) -> Vec<T>,
    decreases k,
{
    if k == 0 {
        0
    } else {
        expansions_until(f, initial, (k - 1) as nat) + generation(f, initial, k).len()
    }
}

/// `x`, or `usize::MAX` where it is larger.
pub open spec fn capped(x: int) -> int {
    if x > usize::MAX {
        usize::MAX as int
    } else {
        x
    }
}

/// Once a generation is empty, every later one is, and no edge is added.
proof fn lemma_tree_exhausted<T, F>(f: F, initial: Seq<Node<T>>, a: nat, b: nat) where
    F: Fn(&Node<T>) -> Vec<T>,

    requires
        generation(f, initial, a + 1).len() == 0,
        a <= b,
    ensures
        generation(f, initial, b + 1).len() == 0,
        expansions_until(f, initial, b) == expansions_until(f, initial, a),
    decreases b - a,
{
    if a < b {
        lemma_tree_exhausted(f, initial, a, (b - 1) as nat);
        assert(generation(f, initial, b).len() == 0);
        assert(generation(f, initial, b) =~= Seq::<Node<T>>::empty());
        assert(generation(f, initial, b + 1) == next_generation(f, generation(f, initial, b)));
    }
}

/// The relation between a node and a list of child payloads `f` may give it.
pub open spec fn expand_rel<T, F>(f: F) -> spec_fn(Node<T>, Seq<T>) -> bool where
    F: Fn(&Node<T>) -> Vec<T>,
 {
    |n: Node<T>, c: Seq<T>| exists|v: Vec<T>| v@ == c && #[trigger] f.ensures((&n,), v)
}

/// The relation between a node and what `f` may answer on it.
pub open spec fn valid_rel<T, V>(f: V) -> spec_fn(Node<T>, bool) -> bool where V: Fn(&Node<T>) -> bool {
    |n: Node<T>, r: bool| f.ensures((&n,), r)
}

/// The children of the nodes of `frontier` holding the payload lists
/// `payloads`, node by node.
pub open spec fn children_of<T>(frontier: Seq<Node<T>>, payloads: Seq<Seq<T>>) -> Seq<Node<T>>
    decreases frontier.len(),
{
    if frontier.len() == 0 || payloads.len() != frontier.len() {
        Seq::empty()
    } else {
        children_of(frontier.drop_last(), payloads.drop_last()) + child_nodes(
            frontier.last(),
            payloads.last(),
        )
    }
}

/// `kids` are the children of `frontier` for payload lists that `expands`
/// relates to each node.
pub open spec fn expands_to<T>(
    expands: spec_fn(Node<T>, Seq<T>) -> bool,
    frontier: Seq<Node<T>>,
    kids: Seq<Node<T>>,
) -> bool {
    exists|ps: Seq<Seq<T>>|
        ps.len() == frontier.len() && (forall|i: int| 0 <= i < frontier.len() ==> expands(frontier[i], #[trigger] ps[i]))
            && kids == #[trigger] children_of(frontier, ps)
}

/// Each entry carries the fitness of its node's payload.
pub open spec fn keyed_by_fitness<T: BeamsearchNode>(s: Seq<(i64, Node<T>)>) -> bool {
    forall|i: int| 0 <= i < s.len() ==> (#[trigger] s[i]).0 == s[i].1.path()[0].spec_fitness()
}

/// One generation from `cur` to `next`, through the `count` children `kids`
/// and what pruning left of them, `pruned`.
pub open spec fn step_via<T: BeamsearchNode>(
    expands: spec_fn(Node<T>, Seq<T>) -> bool,
    similar: spec_fn(Node<T>, Node<T>, bool) -> bool,
    bucket: spec_fn(Node<T>, u32) -> bool,
    prune: bool,
    width: usize,
    cur: Seq<(i64, Node<T>)>,
    next: Seq<(i64, Node<T>)>,
    count: nat,
    kids: Seq<(i64, Node<T>)>,
    pruned: Seq<(i64, Node<T>)>,
) -> bool {
    &&& expands_to(expands, nodes_of(cur), nodes_of(kids))
    &&& keyed_by_fitness(kids)
    &&& count == kids.len()
    &&& count > 0
    &&& if prune {
        prunes_similars(kids, pruned, similar, bucket)
    } else {
        pruned == kids
    }
    &&& cut_to(pruned, next, width)
}

/// One generation: expanding `cur` gives `count` children, at least one; they
/// are pruned if `prune` is set, and cut to the `width` best, which gives
/// `next`.
pub open spec fn steps_to<T: BeamsearchNode>(
    expands: spec_fn(Node<T>, Seq<T>) -> bool,
    similar: spec_fn(Node<T>, Node<T>, bool) -> bool,
    bucket: spec_fn(Node<T>, u32) -> bool,
    prune: bool,
    width: usize,
    cur: Seq<(i64, Node<T>)>,
    next: Seq<(i64, Node<T>)>,
    count: nat,
) -> bool {
    exists|kids: Seq<(i64, Node<T>)>, pruned: Seq<(i64, Node<T>)>|
        #[trigger] step_via(expands, similar, bucket, prune, width, cur, next, count, kids, pruned)
}

/// `fs` is a sequence of frontiers, each one generation after the one before,
/// the `i`-th generation producing `counts[i]` children.
pub open spec fn is_run<T: BeamsearchNode>(
    expands: spec_fn(Node<T>, Seq<T>) -> bool,
    similar: spec_fn(Node<T>, Node<T>, bool) -> bool,
    bucket: spec_fn(Node<T>, u32) -> bool,
    prune: bool,
    width: usize,
    fs: Seq<Seq<(i64, Node<T>)>>,
    counts: Seq<nat>,
) -> bool {
    &&& fs.len() == counts.len() + 1
    &&& forall|i: int|
        0 <= i < counts.len() ==> steps_to(
            expands,
            similar,
            bucket,
            prune,
            width,
            fs[i],
            fs[i + 1],
            #[trigger] counts[i],
        )
}

/// Expanding `frontier` yields no child at all.
pub open spec fn is_exhausted<T>(expands: spec_fn(Node<T>, Seq<T>) -> bool, frontier: Seq<(i64, Node<T>)>) -> bool {
    expands_to(expands, nodes_of(frontier), Seq::empty())
}

/// The sum of `counts`.
pub open spec fn sum_of(counts: Seq<nat>) -> int
    decreases counts.len(),
{
    if counts.len() == 0 {
        0
    } else {
        sum_of(counts.drop_last()) + counts.last()
    }
}

/// A whole search from `initial`: the run `fs` (with `counts`) ends at a
/// frontier whose expansion yields nothing (or after `usize::MAX`
/// generations), `best` is the answer from that last frontier, and `nr` counts
/// all children produced.
pub open spec fn runs_to<T: BeamsearchNode>(
    expands: spec_fn(Node<T>, Seq<T>) -> bool,
    similar: spec_fn(Node<T>, Node<T>, bool) -> bool,
    bucket: spec_fn(Node<T>, u32) -> bool,
    valid: spec_fn(Node<T>, bool) -> bool,
    prune: bool,
    width: usize,
    initial: Seq<(i64, Node<T>)>,
    fs: Seq<Seq<(i64, Node<T>)>>,
    counts: Seq<nat>,
    best: Option<Node<T>>,
    nr: usize,
) -> bool {
    &&& is_run(expands, similar, bucket, prune, width, fs, counts)
    &&& fs[0] == initial
    &&& is_exhausted(expands, fs.last()) || counts.len() == usize::MAX
    &&& accepts_best(fs.last(), valid, best)
    &&& nr == capped(sum_of(counts))
}

/// Expansion stated over a relation stays true over any relation that holds
/// wherever it does.
proof fn lemma_expands_weakens<T>(
    e1: spec_fn(Node<T>, Seq<T>) -> bool,
    e2: spec_fn(Node<T>, Seq<T>) -> bool,
    frontier: Seq<Node<T>>,
    kids: Seq<Node<T>>,
)
    requires
        expands_to(e1, frontier, kids),
        forall|n: Node<T>, c: Seq<T>| #[trigger] e1(n, c) ==> e2(n, c),
    ensures
        expands_to(e2, frontier, kids),
{
    let ps = choose|ps: Seq<Seq<T>>|
        ps.len() == frontier.len() && (forall|i: int| 0 <= i < frontier.len() ==> e1(frontier[i], #[trigger] ps[i]))
            && kids == #[trigger] children_of(frontier, ps);
    assert forall|i: int| 0 <= i < frontier.len() implies e2(frontier[i], #[trigger] ps[i]) by {
        assert(e1(frontier[i], ps[i]));
    }
}

/// A whole search stated over relations stays true over any relations that
/// hold wherever these do.
pub proof fn lemma_run_weakens<T: BeamsearchNode>(
    e1: spec_fn(Node<T>, Seq<T>) -> bool,
    s1: spec_fn(Node<T>, Node<T>, bool) -> bool,
    b1: spec_fn(Node<T>, u32) -> bool,
    v1: spec_fn(Node<T>, bool) -> bool,
    e2: spec_fn(Node<T>, Seq<T>) -> bool,
    s2: spec_fn(Node<T>, Node<T>, bool) -> bool,
    b2: spec_fn(Node<T>, u32) -> bool,
    v2: spec_fn(Node<T>, bool) -> bool,
    prune: bool,
    width: usize,
    initial: Seq<(i64, Node<T>)>,
    fs: Seq<Seq<(i64, Node<T>)>>,
    counts: Seq<nat>,
    best: Option<Node<T>>,
    nr: usize,
)
    requires
        runs_to(e1, s1, b1, v1, prune, width, initial, fs, counts, best, nr),
        forall|n: Node<T>, c: Seq<T>| #[trigger] e1(n, c) ==> e2(n, c),
        forall|x: Node<T>, y: Node<T>, r: bool| #[trigger] s1(x, y, r) ==> s2(x, y, r),
        forall|x: Node<T>, k: u32| #[trigger] b1(x, k) ==> b2(x, k),
        forall|x: Node<T>, r: bool| #[trigger] v1(x, r) ==> v2(x, r),
    ensures
        runs_to(e2, s2, b2, v2, prune, width, initial, fs, counts, best, nr),
{
    assert forall|i: int| 0 <= i < counts.len() implies steps_to(
        e2,
        s2,
        b2,
        prune,
        width,
        fs[i],
        fs[i + 1],
        #[trigger] counts[i],
    ) by {
        assert(steps_to(e1, s1, b1, prune, width, fs[i], fs[i + 1], counts[i]));
        let (kids, pruned) = choose|kids: Seq<(i64, Node<T>)>, pruned: Seq<(i64, Node<T>)>|
            #[trigger] step_via(e1, s1, b1, prune, width, fs[i], fs[i + 1], counts[i], kids, pruned);
        lemma_expands_weakens(e1, e2, nodes_of(fs[i]), nodes_of(kids));
        if prune {
            lemma_prunes_weakens(kids, pruned, s1, b1, s2, b2);
        }
        assert(step_via(e2, s2, b2, prune, width, fs[i], fs[i + 1], counts[i], kids, pruned));
    }
    if is_exhausted(e1, fs.last()) {
        lemma_expands_weakens(e1, e2, nodes_of(fs.last()), Seq::empty());
    }
    match best {
        Some(b) => {
            let i = choose|i: int| is_best_index(fs.last(), i) && fs.last()[i].1 == b && v1(b, true);
            assert(v2(b, true));
        },
        None => {
            if fs.last().len() != 0 {
                let i = choose|i: int| is_best_index(fs.last(), i) && v1(fs.last()[i].1, false);
                assert(v2(fs.last()[i].1, false));
            }
        },
    }
}

/// With a deterministic expander, the children are the next generation.
proof fn lemma_children_are_next_generation<T, F>(f: F, frontier: Seq<Node<T>>, ps: Seq<Seq<T>>) where
    F: Fn(&Node<T>) -> Vec<T>,

    requires
        is_deterministic(f),
        ps.len() == frontier.len(),
        forall|i: int| 0 <= i < frontier.len() ==> expand_rel(f)(frontier[i], #[trigger] ps[i]),
    ensures
        children_of(frontier, ps) == next_generation(f, frontier),
    decreases frontier.len(),
{
    if frontier.len() > 0 {
        let k = frontier.len() - 1;
        assert forall|i: int| 0 <= i < frontier.drop_last().len() implies expand_rel(f)(
            frontier.drop_last()[i],
            #[trigger] ps.drop_last()[i],
        ) by {
            assert(expand_rel(f)(frontier[i], ps[i]));
        }
        lemma_children_are_next_generation(f, frontier.drop_last(), ps.drop_last());
        assert(expand_rel(f)(frontier[k], ps[k]));
        let v = choose|v: Vec<T>| v@ == ps[k] && f.ensures((&frontier[k],), v);
        let c = choose|c: Vec<T>| f.ensures((&frontier.last(),), c);
        assert(f.ensures((&frontier.last(),), v));
        assert(c@ == v@);
    }
}

/// The search: the frontier, the caller's functions and the parameters.
pub struct BeamsearchSolver<T, F, S, H, V> {
    coll: BeamsearchCollection<T>,
    expander: F,
    is_similar: S,
    similarity_hash: H,
    is_valid_solution: V,
    params: Params,
}

impl<T, F, S, H, V> BeamsearchSolver<T, F, S, H, V> where
    T: BeamsearchNode + Send + Sync,
    F: Fn(&Node<T>) -> Vec<T> + Sync,
    S: Fn(&Node<T>, &Node<T>) -> bool + Sync,
    H: Fn(&Node<T>) -> u32,
    V: Fn(&Node<T>) -> bool,
 {
    /// The present frontier.
    pub closed spec fn frontier(&self) -> Seq<(i64, Node<T>)> {
        self.coll@
    }

    /// The function that expands a node into child payloads.
    pub closed spec fn spec_expander(&self) -> F {
        self.expander
    }

    /// The function that tells similar candidates.
    pub closed spec fn spec_is_similar(&self) -> S {
        self.is_similar
    }

    /// The function that gives each candidate its bucket.
    pub closed spec fn spec_similarity_hash(&self) -> H {
        self.similarity_hash
    }

    /// The parameters of the search.
    pub closed spec fn spec_params(&self) -> Params {
        self.params
    }

    /// The function that accepts or rejects the final best candidate.
    pub closed spec fn spec_is_valid(&self) -> V {
        self.is_valid_solution
    }

    /// Every function the search calls may be called on any node, and the
    /// frontier keeps its sorted promise.
    pub closed spec fn wf(&self) -> bool {
        &&& self.coll.wf()
        &&& forall|a: &Node<T>| self.expander.requires((a,))
        &&& forall|a: &Node<T>, b: &Node<T>| self.is_similar.requires((a, b))
        &&& forall|a: &Node<T>| self.similarity_hash.requires((a,))
        &&& forall|a: &Node<T>| self.is_valid_solution.requires((a,))
    }

    /// A search whose first frontier holds one root per start payload, in
    /// order.
    pub fn new(
        start_nodes: Vec<T>,
        expander: F,
        is_similar: S,
        similarity_hash: H,
        is_valid_solution: V,
        params: Params,
    ) -> (r: Self)
        requires
            forall|a: &Node<T>| expander.requires((a,)),
            forall|a: &Node<T>, b: &Node<T>| is_similar.requires((a, b)),
            forall|a: &Node<T>| similarity_hash.requires((a,)),
            forall|a: &Node<T>| is_valid_solution.requires((a,)),
        ensures
            r.wf(),
            r.spec_expander() == expander,
            r.spec_is_similar() == is_similar,
            r.spec_similarity_hash() == similarity_hash,
            r.spec_is_valid() == is_valid_solution,
            r.spec_params() == params,
            r.frontier().len() == start_nodes@.len(),
            forall|i: int|
                0 <= i < start_nodes@.len() ==> (#[trigger] r.frontier()[i]).1.path() == seq![
                    start_nodes@[i],
                ],
            keyed_by_fitness(r.frontier()),
    {
        let mut coll = BeamsearchCollection::new();
        let mut pending = start_nodes;
        let ghost all = pending@;
        while pending.len() > 0
            invariant
                coll.wf(),
                coll@.len() + pending@.len() == all.len(),
                pending@ == all.skip(coll@.len() as int),
                forall|i: int| 0 <= i < coll@.len() ==> (#[trigger] coll@[i]).1.path() == seq![all[i]],
                keyed_by_fitness(coll@),
            decreases pending@.len(),
        {
            let payload = pending.remove(0);
            let ghost before = coll@;
            coll.add(Node::new_root(payload));
            proof {
                assert(pending@ =~= all.skip(coll@.len() as int));
                assert forall|i: int| 0 <= i < coll@.len() implies (#[trigger] coll@[i]).1.path()
                    == seq![all[i]] by {
                    if i < before.len() {
                        assert(coll@[i] == coll@.drop_last()[i]);
                    }
                }
                assert forall|i: int| 0 <= i < coll@.len() implies (#[trigger] coll@[i]).0
                    == coll@[i].1.path()[0].spec_fitness() by {
                    if i < before.len() {
                        assert(coll@[i] == coll@.drop_last()[i]);
                    }
                }
            }
        }
        BeamsearchSolver { coll, expander, is_similar, similarity_hash, is_valid_solution, params }
    }

    /// Expands every node of the frontier into a fresh pool of its children and
    /// returns that pool with the number of children.
    fn expand(&self) -> (r: (BeamsearchCollection<T>, usize))
        requires
            self.wf(),
        ensures
            r.0.wf(),
            r.1 == r.0@.len(),
            self.frontier().len() == 0 ==> r.1 == 0,
            (forall|a: &Node<T>, c: Vec<T>| #[trigger] self.expander.ensures((a,), c) ==> c@.len() == 0)
                ==> r.1 == 0,
            expands_to(expand_rel(self.expander), nodes_of(self.frontier()), nodes_of(r.0@)),
            keyed_by_fitness(r.0@),
            is_deterministic(self.expander) ==> nodes_of(r.0@) == next_generation(
                self.expander,
                nodes_of(self.frontier()),
            ),
    {
        let entries = self.coll.iter();
        let ghost parents = nodes_of(entries@);
        let mut results = expand_in_parallel(entries, &self.expander);
        let total = results.len();
        let ghost all = results@;
        let ghost ps = all.map_values(|v: Vec<T>| v@);
        let mut next = BeamsearchCollection::new();
        let mut nr_expanded: usize = 0;
        let mut i: usize = 0;
        while results.len() > 0
            invariant
                next.wf(),
                nr_expanded == next@.len(),
                all.len() == entries@.len(),
                all.len() == total,
                i + results@.len() == all.len(),
                results@ == all.skip(i as int),
                entries@.len() == 0 ==> nr_expanded == 0,
                forall|k: int| 0 <= k < all.len() ==> self.expander.ensures((&entries@[k].1,), #[trigger] all[k]),
                (forall|a: &Node<T>, c: Vec<T>| #[trigger] self.expander.ensures((a,), c) ==> c@.len() == 0)
                    ==> nr_expanded == 0,
                parents == nodes_of(entries@),
                ps == all.map_values(|v: Vec<T>| v@),
                nodes_of(next@) == children_of(parents.take(i as int), ps.take(i as int)),
                keyed_by_fitness(next@),
            decreases results@.len(),
        {
            let mut children = results.remove(0);
            proof {
                assert(children == all[i as int]);
                assert(results@ =~= all.skip(i + 1));
            }
            let parent = &entries[i].1;
            let ghost done_before = nodes_of(next@);
            let ghost payloads = children@;
            while children.len() > 0
                invariant
                    next.wf(),
                    nr_expanded == next@.len(),
                    i < all.len() == entries@.len(),
                    all.len() == total,
                    (forall|a: &Node<T>, c: Vec<T>| #[trigger] self.expander.ensures((a,), c) ==> c@.len() == 0)
                        ==> nr_expanded == 0 && children@.len() == 0,
                    children@.len() <= payloads.len(),
                    children@ == payloads.skip(payloads.len() - children@.len()),
                    nodes_of(next@) == done_before + child_nodes(
                        *parent,
                        payloads.take(payloads.len() - children@.len()),
                    ),
                    keyed_by_fitness(next@),
                decreases children@.len(),
            {
                let ghost taken = payloads.len() - children@.len();
                let ghost before = next@;
                let payload = children.remove(0);
                proof {
                    assert(payload == payloads[taken]);
                    assert(children@ =~= payloads.skip(taken + 1));
                }
                let child = parent.new_child(payload);
                next.add(child);
                nr_expanded = next.len();
                proof {
                    assert(next@ =~= before.push(next@.last()));
                    assert(child.path()[0] == payload);
                    assert forall|m: int| 0 <= m < next@.len() implies (#[trigger] next@[m]).0
                        == next@[m].1.path()[0].spec_fitness() by {
                        if m < before.len() {
                            assert(next@[m] == before[m]);
                        }
                    }
                    assert(nodes_of(next@) =~= nodes_of(before).push(child));
                    assert(payloads.take(taken + 1) =~= payloads.take(taken).push(payload));
                    assert(child_nodes(*parent, payloads.take(taken + 1)) =~= child_nodes(
                        *parent,
                        payloads.take(taken),
                    ).push(child));
                    assert(nodes_of(next@) =~= done_before + child_nodes(*parent, payloads.take(taken + 1)));
                }
            }
            proof {
                assert(payloads.take(payloads.len() as int) =~= payloads);
                assert(ps[i as int] == payloads);
                assert(parents.take(i + 1).drop_last() =~= parents.take(i as int));
                assert(ps.take(i + 1).drop_last() =~= ps.take(i as int));
                assert(parents.take(i + 1).last() == parents[i as int]);
                assert(ps.take(i + 1).last() == ps[i as int]);
                assert(parents[i as int] == entries@[i as int].1);
            }
            i += 1;
        }
        proof {
            assert(parents.take(parents.len() as int) =~= parents);
            assert(ps.take(ps.len() as int) =~= ps);
            assert forall|k: int| 0 <= k < parents.len() implies expand_rel(self.expander)(
                parents[k],
                #[trigger] ps[k],
            ) by {
                assert(self.expander.ensures((&entries@[k].1,), all[k]));
            }
            assert(nodes_of(next@) == children_of(parents, ps));
            if is_deterministic(self.expander) {
                lemma_children_are_next_generation(self.expander, parents, ps);
            }
        }
        (next, nr_expanded)
    }

    /// The search's answer from its frontier: the fittest candidate if
    /// `is_valid_solution` accepts it, else none.
    fn create_result(&self, all_expansions: usize) -> (r: SolverResult<T>)
        requires
            self.wf(),
        ensures
            r.nr_expansions == all_expansions,
            accepts_best(self.frontier(), valid_rel(self.is_valid_solution), r.best),
    {
        match self.coll.get_best() {
            Some(best) => {
                if (self.is_valid_solution)(best) {
                    SolverResult { best: Some(best.clone()), nr_expansions: all_expansions }
                } else {
                    SolverResult { best: None, nr_expansions: all_expansions }
                }
            },
            None => SolverResult { best: None, nr_expansions: all_expansions },
        }
    }

    /// Runs generations until one produces no child (or `usize::MAX`
    /// generations have run), then answers from the last frontier that had
    /// candidates. Each generation expands every candidate, prunes similar
    /// children if `params.prune_similars` is set, and keeps the
    /// `params.beam_width` fittest.
    pub fn solve(self) -> (r: SolverResult<T>)
        requires
            self.wf(),
        ensures
            exists|fs: Seq<Seq<(i64, Node<T>)>>, counts: Seq<nat>|
                #[trigger] runs_to(
                    expand_rel(self.spec_expander()),
                    similar_rel(self.spec_is_similar()),
                    bucket_rel(self.spec_similarity_hash()),
                    valid_rel(self.spec_is_valid()),
                    self.spec_params().prune_similars,
                    self.spec_params().beam_width,
                    self.frontier(),
                    fs,
                    counts,
                    r.best,
                    r.nr_expansions,
                ),
            r.best matches Some(b) ==> self.spec_is_valid().ensures((&b,), true),
            (forall|a: &Node<T>, v: bool| #[trigger] self.spec_is_valid().ensures((a,), v) ==> !v)
                ==> r.best is None,
            self.frontier().len() == 0 ==> r.best is None && r.nr_expansions == 0,
            (forall|a: &Node<T>, c: Vec<T>| #[trigger] self.spec_expander().ensures((a,), c) ==> c@.len() == 0)
                ==> r.nr_expansions == 0 && accepts_best(self.frontier(), valid_rel(self.spec_is_valid()), r.best),
            forall|k: nat|
                !self.spec_params().prune_similars && is_deterministic(self.spec_expander()) && (forall|j: nat|
                    #[trigger] generation(self.spec_expander(), nodes_of(self.frontier()), j).len()
                        <= self.spec_params().beam_width) && k < usize::MAX && generation(
                    self.spec_expander(),
                    nodes_of(self.frontier()),
                    k + 1,
                ).len() == 0 ==> r.nr_expansions == capped(
                    #[trigger] expansions_until(self.spec_expander(), nodes_of(self.frontier()), k),
                ),
    {
        let ghost initial = self.coll@;
        let ghost f = self.expander;
        let ghost init = nodes_of(initial);
        let ghost ex = expand_rel(self.expander);
        let ghost sim = similar_rel(self.is_similar);
        let ghost bk = bucket_rel(self.similarity_hash);
        let ghost prune = self.params.prune_similars;
        let ghost width = self.params.beam_width;
        let ghost full = !self.params.prune_similars && is_deterministic(self.expander) && (forall|j: nat|
            #[trigger] generation(self.expander, init, j).len() <= self.params.beam_width);
        let ghost mut gens: nat = 0;
        let ghost mut fs: Seq<Seq<(i64, Node<T>)>> = seq![initial];
        let ghost mut counts: Seq<nat> = Seq::empty();
        let mut solver = self;
        let mut all_expansions: usize = 0;
        let mut round: usize = 0;
        let mut done = false;
        while !done && round < usize::MAX
            invariant
                solver.wf(),
                solver.expander == self.expander,
                solver.is_similar == self.is_similar,
                solver.similarity_hash == self.similarity_hash,
                solver.is_valid_solution == self.is_valid_solution,
                solver.params == self.params,
                f == self.expander,
                ex == expand_rel(self.expander),
                sim == similar_rel(self.is_similar),
                bk == bucket_rel(self.similarity_hash),
                prune == self.params.prune_similars,
                width == self.params.beam_width,
                full == (!self.params.prune_similars && is_deterministic(self.expander) && (forall|j: nat|
                    #[trigger] generation(self.expander, init, j).len() <= self.params.beam_width)),
                is_run(ex, sim, bk, prune, width, fs, counts),
                fs[0] == initial,
                fs.last() == solver.coll@,
                all_expansions == capped(sum_of(counts)),
                done ==> is_exhausted(ex, fs.last()),
                !done ==> counts.len() == round,
                initial.len() == 0 ==> solver.coll@.len() == 0 && all_expansions == 0,
                (forall|a: &Node<T>, c: Vec<T>| #[trigger] self.expander.ensures((a,), c) ==> c@.len() == 0)
                    ==> solver.coll@ == initial && all_expansions == 0,
                full ==> nodes_of(solver.coll@) == generation(f, init, gens),
                full ==> all_expansions == capped(expansions_until(f, init, gens)),
                full && done ==> generation(f, init, gens + 1).len() == 0,
                full && !done ==> gens == round,
            decreases usize::MAX - round,
        {
            let (mut next, nr_expanded) = solver.expand();
            let ghost kids = next@;
            if solver.params.prune_similars {
                next.remove_similars_by(&solver.is_similar, &solver.similarity_hash);
            }
            let ghost pruned = next@;
            proof {
                if full {
                    assert(generation(f, init, gens + 1) == next_generation(f, generation(f, init, gens)));
                    assert(nodes_of(kids).len() == kids.len());
                    assert(generation(f, init, gens + 1).len() <= width);
                }
            }
            if nr_expanded == 0 {
                done = true;
                proof {
                    assert(nodes_of(kids) =~= Seq::<Node<T>>::empty());
                }
            } else {
                all_expansions = all_expansions.saturating_add(nr_expanded);
                let ghost cur = solver.coll@;
                solver.coll = next;
                solver.coll.keep_best(solver.params.beam_width);
                proof {
                    assert(step_via(ex, sim, bk, prune, width, cur, solver.coll@, nr_expanded as nat, kids, pruned));
                    let fs2 = fs.push(solver.coll@);
                    let counts2 = counts.push(nr_expanded as nat);
                    assert forall|i: int| 0 <= i < counts2.len() implies steps_to(
                        ex,
                        sim,
                        bk,
                        prune,
                        width,
                        fs2[i],
                        fs2[i + 1],
                        #[trigger] counts2[i],
                    ) by {
                        if i < counts.len() {
                            assert(fs2[i] == fs[i] && fs2[i + 1] == fs[i + 1] && counts2[i] == counts[i]);
                            assert(steps_to(ex, sim, bk, prune, width, fs[i], fs[i + 1], counts[i]));
                        } else {
                            assert(fs2[i] == cur && fs2[i + 1] == solver.coll@);
                        }
                    }
                    assert(counts2.drop_last() =~= counts);
                    fs = fs2;
                    counts = counts2;
                    if full {
                        gens = gens + 1;
                    }
                }
            }
            round += 1;
        }
        let r = solver.create_result(all_expansions);
        proof {
            assert(self.spec_expander() == self.expander);
            assert(self.spec_is_similar() == self.is_similar);
            assert(self.spec_similarity_hash() == self.similarity_hash);
            assert(self.spec_is_valid() == self.is_valid_solution);
            assert(self.spec_params() == self.params);
            assert(nodes_of(self.frontier()) == init);
            assert(runs_to(ex, sim, bk, valid_rel(self.is_valid_solution), prune, width, initial, fs, counts, r.best, r.nr_expansions));
            assert forall|k: nat|
                !self.spec_params().prune_similars && is_deterministic(self.spec_expander()) && (forall|j: nat|
                    #[trigger] generation(self.spec_expander(), nodes_of(self.frontier()), j).len()
                        <= self.spec_params().beam_width) && k < usize::MAX && generation(
                    self.spec_expander(),
                    nodes_of(self.frontier()),
                    k + 1,
                ).len() == 0 implies r.nr_expansions == capped(
                    #[trigger] expansions_until(self.spec_expander(), nodes_of(self.frontier()), k),
                ) by {
                if done {
                    if gens <= k {
                        lemma_tree_exhausted(f, init, gens, k);
                    } else {
                        lemma_tree_exhausted(f, init, k, gens);
                    }
                } else {
                    lemma_tree_exhausted(f, init, k, gens);
                }
            }
        }
        r
    }
}

/// `best` is the search's answer from `frontier`: the first fittest candidate
/// when `is_valid` accepted it, and nothing when the frontier is empty or
/// `is_valid` rejected that candidate.
pub open spec fn accepts_best<T>(
    frontier: Seq<(i64, Node<T>)>,
    is_valid: spec_fn(Node<T>, bool) -> bool,
    best: Option<Node<T>>,
) -> bool {
    match best {
        Some(b) => exists|i: int| is_best_index(frontier, i) && frontier[i].1 == b && is_valid(b, true),
        None => frontier.len() == 0 || exists|i: int| is_best_index(frontier, i) && is_valid(frontier[i].1, false),
    }
}

} // verus!
