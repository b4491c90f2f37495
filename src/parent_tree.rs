//! A persistent tree in which every node points at its parent through a shared,
//! reference-counted handle. Branching never copies the ancestry.

use std::sync::Arc;
use vstd::prelude::*;

verus! {

struct InnerParentTreeNode<T> {
    parent: Option<ParentTreeNode<T>>,
    data: T,
}

/// One node of the tree: a payload and a shared handle on its parent.
pub struct ParentTreeNode<T> {
    inner: Arc<InnerParentTreeNode<T>>,
}

/// Relies on `Arc::clone`: the new handle points at the same allocation, so it
/// holds the same value.
#[verifier::external_body]
pub(crate) fn share<T>(a: &Arc<T>) -> (r: Arc<T>)
    ensures
        r == *a,
{
    Arc::clone(a)
}

/// Relies on `Arc::ptr_eq`: two handles on one allocation hold one value.
#[verifier::external_body]
fn same_allocation<T>(a: &Arc<T>, b: &Arc<T>) -> (r: bool)
    ensures
        r ==> *a == *b,
{
    Arc::ptr_eq(a, b)
}

impl<T> ParentTreeNode<T> {
    /// The node's parent, if it has one.
    pub closed spec fn spec_parent(self) -> Option<ParentTreeNode<T>> {
        self.inner.parent
    }

    /// The payloads from this node up to and including its root.
    pub closed spec fn path(self) -> Seq<T>
        decreases self,
    {
        match self.inner.parent {
            Some(p) => seq![self.inner.data].add(p.path()),
            None => seq![self.inner.data],
        }
    }

    /// The nodes from this node up to and including its root.
    pub closed spec fn lineage(self) -> Seq<ParentTreeNode<T>>
        decreases self,
    {
        match self.inner.parent {
            Some(p) => seq![self].add(p.lineage()),
            None => seq![self],
        }
    }

    /// Each node's path is its payload followed by its parent's path.
    pub proof fn lemma_path_shape(self)
        ensures
            self.path().len() >= 1,
            self.lineage().len() == self.path().len(),
            self.lineage()[0] == self,
            match self.spec_parent() {
                Some(p) => self.path() == seq![self.path()[0]].add(p.path())
                    && self.lineage() == seq![self].add(p.lineage()),
                None => self.path().len() == 1 && self.lineage().len() == 1,
            },
        decreases self,
    {
        match self.inner.parent {
            Some(p) => {
                p.lemma_path_shape();
            },
            None => {},
        }
    }

    /// Every node of the lineage carries the path from its own position on.
    pub proof fn lemma_lineage_paths(self)
        ensures
            forall|i: int|
                0 <= i < self.lineage().len() ==> (#[trigger] self.lineage()[i]).path()
                    == self.path().subrange(i, self.path().len() as int),
        decreases self,
    {
        self.lemma_path_shape();
        match self.inner.parent {
            Some(p) => {
                p.lemma_lineage_paths();
                p.lemma_path_shape();
                assert forall|i: int| 0 <= i < self.lineage().len() implies (
                #[trigger] self.lineage()[i]).path() == self.path().subrange(
                    i,
                    self.path().len() as int,
                ) by {
                    if i == 0 {
                        assert(self.path().subrange(0, self.path().len() as int) =~= self.path());
                    } else {
                        assert(self.lineage()[i] == p.lineage()[i - 1]);
                        assert(p.path().subrange(i - 1, p.path().len() as int) =~= self.path().subrange(
                            i,
                            self.path().len() as int,
                        ));
                    }
                }
            },
            None => {
                assert(self.path().subrange(0, self.path().len() as int) =~= self.path());
            },
        }
    }

    /// The node holding `data` whose parent is `parent`.
    pub closed spec fn spec_child(parent: Self, data: T) -> Self {
        choose|c: Self| c.spec_parent() == Some(parent) && c.path()[0] == data
    }

    /// A node is determined by its parent and its payload.
    proof fn lemma_determined(a: Self, b: Self)
        requires
            a.inner.parent == b.inner.parent,
            a.inner.data == b.inner.data,
        ensures
            a == b,
    {
        assert(*a.inner == *b.inner);
    }

    /// A new root holding `data`.
    pub fn new_root(data: T) -> (r: Self)
        ensures
            r.path() == seq![data],
            r.spec_parent() == None::<ParentTreeNode<T>>,
    {
        ParentTreeNode { inner: Arc::new(InnerParentTreeNode { parent: None, data }) }
    }

    /// A new node holding `data` whose parent is this node; the ancestry is
    /// shared, not copied.
    pub fn new_child(&self, data: T) -> (r: Self)
        ensures
            r.path() == seq![data].add(self.path()),
            r.spec_parent() == Some(*self),
            r == Self::spec_child(*self, data),
    {
        let parent = ParentTreeNode { inner: share(&self.inner) };
        let r = ParentTreeNode { inner: Arc::new(InnerParentTreeNode { parent: Some(parent), data }) };
        proof {
            r.lemma_path_shape();
            let c = Self::spec_child(*self, data);
            assert(r.spec_parent() == Some(*self) && r.path()[0] == data);
            c.lemma_path_shape();
            Self::lemma_determined(c, r);
        }
        r
    }

    /// The payload of this node.
    pub fn data(&self) -> (r: &T)
        ensures
            self.path().len() >= 1,
            *r == self.path()[0],
    {
        proof {
            self.lemma_path_shape();
        }
        &self.inner.data
    }

    /// Whether this node has no parent.
    pub fn is_root(&self) -> (r: bool)
        ensures
            r == (self.spec_parent() is None),
            r == (self.path().len() == 1),
    {
        proof {
            self.lemma_path_shape();
        }
        self.inner.parent.is_none()
    }

    /// The parent of this node, if any.
    pub fn parent(&self) -> (r: Option<&ParentTreeNode<T>>)
        ensures
            match r {
                Some(p) => self.spec_parent() == Some(*p) && p.path() == self.path().drop_first(),
                None => self.spec_parent() is None && self.path().len() == 1,
            },
    {
        proof {
            self.lemma_path_shape();
        }
        match &self.inner.parent {
            Some(p) => {
                proof {
                    assert(p.path() =~= self.path().drop_first());
                }
                Some(p)
            },
            None => None,
        }
    }

    /// Whether both handles point at the very same node.
    pub fn is_same_node(&self, other: &Self) -> (r: bool)
        ensures
            r ==> *self == *other,
    {
        same_allocation(&self.inner, &other.inner)
    }

    /// The proper ancestors of this node: its parent, then the parent's parent,
    /// and so on up to the root.
    pub fn parents(&self) -> (r: Vec<&ParentTreeNode<T>>)
        ensures
            r@.len() == self.lineage().len() - 1,
            forall|i: int| 0 <= i < r@.len() ==> *(#[trigger] r@[i]) == self.lineage()[i + 1],
    {
        proof {
            self.lemma_path_shape();
        }
        match self.parent() {
            Some(p) => p.ancestors(),
            None => Vec::new(),
        }
    }

    /// This node followed by all its ancestors, ending with the root.
    pub fn ancestors(&self) -> (r: Vec<&ParentTreeNode<T>>)
        ensures
            r@.len() == self.lineage().len(),
            forall|i: int| 0 <= i < r@.len() ==> *(#[trigger] r@[i]) == self.lineage()[i],
    {
        let mut out: Vec<&ParentTreeNode<T>> = Vec::new();
        let mut cur: &ParentTreeNode<T> = self;
        proof {
            cur.lemma_path_shape();
        }
        loop
            invariant
                self.lineage().len() == out@.len() + cur.lineage().len(),
                forall|i: int| 0 <= i < out@.len() ==> *(#[trigger] out@[i]) == self.lineage()[i],
                forall|i: int|
                    0 <= i < cur.lineage().len() ==> #[trigger] cur.lineage()[i]
                        == self.lineage()[out@.len() + i],
            decreases cur.lineage().len(),
        {
            proof {
                cur.lemma_path_shape();
            }
            out.push(cur);
            match cur.parent() {
                Some(p) => {
                    proof {
                        p.lemma_path_shape();
                        assert forall|i: int| 0 <= i < p.lineage().len() implies #[trigger] p.lineage()[i]
                            == self.lineage()[out@.len() + i] by {
                            assert(p.lineage()[i] == cur.lineage()[i + 1]);
                        }
                    }
                    cur = p;
                },
                None => {
                    return out;
                },
            }
        }
    }
}

impl<T> Clone for ParentTreeNode<T> {
    /// Another handle on the same node.
    fn clone(&self) -> (r: Self)
        ensures
            r == *self,
    {
        ParentTreeNode { inner: share(&self.inner) }
    }
}

} // verus!
