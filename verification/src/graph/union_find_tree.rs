//! A disjoint-set structure over node indices.
//!
//! Every index points at most to one other index, and always to a smaller
//! one; an index that points nowhere stands for its own class. Which index
//! stands for a class therefore depends only on the classes, never on the
//! order of the calls: it is the smallest root that was ever joined into it.
//! Paths are not compressed.

use crate::collections::ordered_key::OrderedKey;
use crate::collections::ordered_map::OrderedMap;
use crate::graph::ancestry::{
    acyclic, agree_except, hops, lemma_hops, lemma_same_walk, lemma_settles, lemma_walk_last,
    lemma_walk_stable, settles, walk,
};
use crate::node::Node;
use vstd::prelude::*;

verus! {

#[derive(Debug, Clone)]
pub struct UnionFindTree<TNode: Node> {
    parent: OrderedMap<TNode::NodeIndex, TNode::NodeIndex>,
}

/// Every pointer goes to a strictly smaller index.
pub open spec fn descending<I: OrderedKey>(pointers: Map<I::V, I::V>) -> bool {
    forall|k: I::V| pointers.contains_key(k) ==> I::key_lt(#[trigger] pointers[k], k)
}

/// The index that stands for the class of `k`: where the pointers lead from
/// `k`.
pub open spec fn representative<K>(pointers: Map<K, K>, k: K) -> K {
    walk(pointers, k, pointers.len())
}

/// Whether `a` and `b` are in one class.
pub open spec fn same_class<K>(pointers: Map<K, K>, a: K, b: K) -> bool {
    representative(pointers, a) == representative(pointers, b)
}

/// The smaller of two indices.
pub open spec fn smaller<I: OrderedKey>(a: I::V, b: I::V) -> I::V {
    if I::key_lt(a, b) {
        a
    } else {
        b
    }
}

/// The larger of two indices.
pub open spec fn larger<I: OrderedKey>(a: I::V, b: I::V) -> I::V {
    if I::key_lt(a, b) {
        b
    } else {
        a
    }
}

/// Pointers that all go downwards never lead back to where they started.
pub proof fn lemma_descending_walk<I: OrderedKey>(pointers: Map<I::V, I::V>, k: I::V, i: nat)
    requires
        descending::<I>(pointers),
        pointers.contains_key(k),
        i >= 1,
    ensures
        I::key_lt(walk(pointers, k, i), k),
    decreases i,
{
    let up = pointers[k];
    assert(I::key_lt(up, k));
    assert(walk(pointers, k, i) == walk(pointers, up, (i - 1) as nat));
    if i > 1 && pointers.contains_key(up) {
        lemma_descending_walk::<I>(pointers, up, (i - 1) as nat);
        I::lemma_transitive(walk(pointers, up, (i - 1) as nat), up, k);
    }
}

/// Pointers that all go downwards never run in a circle.
pub proof fn lemma_descending_acyclic<I: OrderedKey>(pointers: Map<I::V, I::V>)
    requires
        descending::<I>(pointers),
    ensures
        acyclic(pointers),
{
    assert forall|k: I::V, i: nat| pointers.contains_key(k) && i >= 1 implies #[trigger] walk(
        pointers,
        k,
        i,
    ) != k by {
        lemma_descending_walk::<I>(pointers, k, i);
        I::lemma_irreflexive(k);
    }
}

/// Pointing the root `hi` at the root `lo` moves the class of `hi` under
/// `lo` and leaves every other class as it was.
pub proof fn lemma_link<K>(pointers: Map<K, K>, hi: K, lo: K, k: K)
    requires
        pointers.dom().finite(),
        acyclic(pointers),
        !pointers.contains_key(hi),
        !pointers.contains_key(lo),
        hi != lo,
    ensures
        representative(pointers.insert(hi, lo), k) == if representative(pointers, k) == hi {
            lo
        } else {
            representative(pointers, k)
        },
{
    let next = pointers.insert(hi, lo);
    let n = pointers.len();
    let r = walk(pointers, k, n);
    let h = hops(pointers, k, n);
    assert(next.len() == n + 1);
    assert(agree_except(pointers, next, hi));
    lemma_settles(pointers, k);
    lemma_hops(pointers, k, n);
    if r == hi {
        assert forall|t: nat| t < h implies #[trigger] walk(pointers, k, t) != hi by {}
        lemma_same_walk(pointers, next, hi, k, h);
        lemma_walk_last(next, k, h);
        assert(walk(next, k, h + 1) == lo);
        lemma_walk_stable(next, k, h + 1, n + 1);
    } else {
        assert forall|t: nat| t < n + 1 implies #[trigger] walk(pointers, k, t) != hi by {
            if t >= h {
                lemma_walk_stable(pointers, k, h, t);
            }
        }
        lemma_same_walk(pointers, next, hi, k, n + 1);
        lemma_walk_stable(pointers, k, n, n + 1);
    }
}

/// Being in one class is an equivalence.
pub proof fn lemma_same_class_is_equivalence<K>(pointers: Map<K, K>, a: K, b: K, c: K)
    ensures
        same_class(pointers, a, a),
        same_class(pointers, a, b) ==> same_class(pointers, b, a),
        same_class(pointers, a, b) && same_class(pointers, b, c) ==> same_class(pointers, a, c),
{
}

/// An index that points nowhere stands for itself.
pub proof fn lemma_unlinked_represents_itself<K>(pointers: Map<K, K>, k: K)
    requires
        !pointers.contains_key(k),
    ensures
        representative(pointers, k) == k,
{
}

impl<TNode: Node> View for UnionFindTree<TNode> {
    type V = Map<<TNode::NodeIndex as View>::V, <TNode::NodeIndex as View>::V>;

    closed spec fn view(&self) -> Self::V {
        self.parent@.map_values(|i: TNode::NodeIndex| i@)
    }
}

impl<TNode: Node> UnionFindTree<TNode> {
    /// The pointers are stored in order, and every one goes downwards.
    pub closed spec fn wf(&self) -> bool {
        &&& self.parent.wf()
        &&& descending::<TNode::NodeIndex>(self@)
    }

    /// What well-formedness gives: finitely many pointers, all downwards, and
    /// a representative that points nowhere.
    pub proof fn lemma_wf(&self)
        requires
            self.wf(),
        ensures
            self@.dom().finite(),
            descending::<TNode::NodeIndex>(self@),
            acyclic(self@),
            forall|k: <TNode::NodeIndex as View>::V|
                !self@.contains_key(#[trigger] representative(self@, k)),
    {
        self.parent.lemma_ordered_keys();
        assert(self@.dom() =~= self.parent@.dom());
        lemma_descending_acyclic::<TNode::NodeIndex>(self@);
        assert forall|k: <TNode::NodeIndex as View>::V|
            !self@.contains_key(#[trigger] representative(self@, k)) by {
            lemma_settles(self@, k);
        }
    }

    /// A tree in which every index stands for itself.
    pub fn new() -> (tree: Self)
        ensures
            tree.wf(),
            tree@ == Map::<<TNode::NodeIndex as View>::V, <TNode::NodeIndex as View>::V>::empty(),
    {
        let tree = Self { parent: OrderedMap::new() };
        assert(tree@ =~= Map::<
            <TNode::NodeIndex as View>::V,
            <TNode::NodeIndex as View>::V,
        >::empty());
        tree
    }

    /// How many indices point to another one.
    pub fn number_of_nodes(&self) -> (n: usize)
        requires
            self.wf(),
        ensures
            n == self@.len(),
    {
        assert(self@.dom() =~= self.parent@.dom());
        self.parent.len()
    }

    /// The index that stands for the class of `child`.
    pub fn find(&self, child: &TNode::NodeIndex) -> (r: TNode::NodeIndex)
        requires
            self.wf(),
        ensures
            r@ == representative(self@, child@),
            !self@.contains_key(r@),
    {
        let mut cur = child.duplicate();
        let ghost mut i: nat = 0;
        proof {
            self.lemma_wf();
            lemma_settles(self@, child@);
        }
        loop
            invariant
                self.wf(),
                self@.dom().finite(),
                cur@ == walk(self@, child@, i),
                i <= self@.len(),
                settles(self@, child@, self@.len()),
            decreases self@.len() - i,
        {
            assert(self@.dom() =~= self.parent@.dom());
            match self.parent.get(&cur) {
                None => {
                    proof {
                        lemma_walk_stable(self@, child@, i, self@.len());
                    }
                    return cur;
                },
                Some(next) => {
                    proof {
                        lemma_walk_last(self@, child@, i);
                    }
                    cur = next.duplicate();
                    proof {
                        i = i + 1;
                    }
                },
            }
        }
    }

    /// Joins the classes of `x` and `y`: the larger of the two
    /// representatives is pointed at the smaller one.
    pub fn unite(&mut self, x: &TNode::NodeIndex, y: &TNode::NodeIndex)
        requires
            old(self).wf(),
        ensures
            final(self).wf(),
            same_class(old(self)@, x@, y@) ==> final(self)@ == old(self)@,
            !same_class(old(self)@, x@, y@) ==> final(self)@ == old(self)@.insert(
                larger::<TNode::NodeIndex>(
                    representative(old(self)@, x@),
                    representative(old(self)@, y@),
                ),
                smaller::<TNode::NodeIndex>(
                    representative(old(self)@, x@),
                    representative(old(self)@, y@),
                ),
            ),
            forall|k: <TNode::NodeIndex as View>::V| #[trigger]
                representative(final(self)@, k) == if !same_class(old(self)@, x@, y@)
                    && representative(old(self)@, k) == larger::<TNode::NodeIndex>(
                    representative(old(self)@, x@),
                    representative(old(self)@, y@),
                ) {
                    smaller::<TNode::NodeIndex>(
                        representative(old(self)@, x@),
                        representative(old(self)@, y@),
                    )
                } else {
                    representative(old(self)@, k)
                },
    {
        let root_x = self.find(x);
        let root_y = self.find(y);
        if root_x.same(&root_y) {
            return ;
        }
        let ghost before = self@;
        let ghost rx = root_x@;
        let ghost ry = root_y@;
        proof {
            self.lemma_wf();
            TNode::NodeIndex::lemma_connected(rx, ry);
            TNode::NodeIndex::lemma_irreflexive(rx);
            TNode::NodeIndex::lemma_irreflexive(ry);
            if TNode::NodeIndex::key_lt(rx, ry) && TNode::NodeIndex::key_lt(ry, rx) {
                TNode::NodeIndex::lemma_transitive(rx, ry, rx);
            }
        }
        if root_x.before(&root_y) {
            self.parent.insert(root_y, root_x);
        } else {
            self.parent.insert(root_x, root_y);
        }
        proof {
            let hi = larger::<TNode::NodeIndex>(rx, ry);
            let lo = smaller::<TNode::NodeIndex>(rx, ry);
            assert(self@ =~= before.insert(hi, lo));
            assert forall|k: <TNode::NodeIndex as View>::V| #[trigger]
                representative(self@, k) == if representative(before, k) == hi {
                    lo
                } else {
                    representative(before, k)
                } by {
                lemma_link(before, hi, lo, k);
            }
        }
    }

    /// Whether `x` and `y` are in one class.
    pub fn same(&self, x: &TNode::NodeIndex, y: &TNode::NodeIndex) -> (r: bool)
        requires
            self.wf(),
        ensures
            r == same_class(self@, x@, y@),
    {
        let root_x = self.find(x);
        let root_y = self.find(y);
        root_x.same(&root_y)
    }
}

} // verus!
