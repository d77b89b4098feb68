//! Clones of nodes and tries: the same nodes, with each value cloned.

use crate::node::TrieNode;
use crate::shape::Shape;
use crate::Trie;
use vstd::prelude::*;

verus! {

impl<T: Clone> Shape<T> {
    /// `other` is a clone of the subtree: the same nodes in the same order,
    /// with the same fragments, and each value a clone of the value in its
    /// place.
    pub open spec fn cloned_to(self, other: Self) -> bool
        decreases self,
    {
        &&& other.fragment == self.fragment
        &&& match (self.value, other.value) {
            (Some(a), Some(b)) => cloned::<T>(a, b),
            (None, None) => true,
            _ => false,
        }
        &&& other.children.len() == self.children.len()
        &&& forall|i: int|
            0 <= i < self.children.len() ==> (#[trigger] self.children[i]).cloned_to(
                other.children[i],
            )
    }

    /// A clone is compressed where the subtree that it was made from is.
    pub proof fn lemma_cloned_wf(self, other: Self)
        requires
            self.cloned_to(other),
        ensures
            self.wf() ==> other.wf(),
            self.branches_wf() ==> other.branches_wf(),
        decreases self,
    {
        assert forall|i: int| 0 <= i < self.children.len() implies (self.children[i].wf()
            ==> other.children[i].wf()) && #[trigger] other.children[i].fragment
            == self.children[i].fragment by {
            self.children[i].lemma_cloned_wf(other.children[i]);
        }
        if self.branches_wf() {
            assert forall|i: int| 0 <= i < other.children.len() implies (
            #[trigger] other.children[i]).wf() && other.children[i].fragment.len() > 0 by {
                assert(other.children[i].fragment == self.children[i].fragment);
            }
        }
    }

    /// Of what a subtree stores under a key, its clone stores a clone.
    pub proof fn lemma_cloned_holds(self, other: Self, k: Seq<u8>, v: T) -> (w: T)
        requires
            self.cloned_to(other),
            self.holds(k, v),
        ensures
            other.holds(k, w),
            cloned::<T>(v, w),
        decreases self,
    {
        if k.len() == self.fragment.len() {
            other.value->0
        } else {
            let rest = k.skip(self.fragment.len() as int);
            let i = choose|i: int|
                0 <= i < self.children.len() && (#[trigger] self.children[i]).holds(rest, v);
            self.children[i].lemma_cloned_holds(other.children[i], rest, v)
        }
    }

    /// What a clone stores under a key is a clone of what the subtree that
    /// it was made from stores there.
    pub proof fn lemma_cloned_held(self, other: Self, k: Seq<u8>, w: T) -> (v: T)
        requires
            self.cloned_to(other),
            other.holds(k, w),
        ensures
            self.holds(k, v),
            cloned::<T>(v, w),
        decreases self,
    {
        if k.len() == self.fragment.len() {
            self.value->0
        } else {
            let rest = k.skip(self.fragment.len() as int);
            let i = choose|i: int|
                0 <= i < other.children.len() && (#[trigger] other.children[i]).holds(rest, w);
            self.children[i].lemma_cloned_held(other.children[i], rest, w)
        }
    }

    /// A clone has the keys of the subtree that it was made from, each with
    /// a clone of its value.
    pub proof fn lemma_cloned_map(self, other: Self)
        requires
            self.cloned_to(other),
            self.branches_wf(),
        ensures
            other.as_map().dom() == self.as_map().dom(),
            forall|k: Seq<u8>| #[trigger]
                self.as_map().dom().contains(k) ==> cloned::<T>(
                    self.as_map()[k],
                    other.as_map()[k],
                ),
    {
        self.lemma_cloned_wf(other);
        other.lemma_view_holds();
        assert forall|k: Seq<u8>|
            other.as_map().dom().contains(k) == self.as_map().dom().contains(k) by {
            if self.as_map().dom().contains(k) {
                let w = self.lemma_cloned_holds(other, k, self.as_map()[k]);
                assert(other.holds(k, w));
            }
            if other.as_map().dom().contains(k) {
                let v = self.lemma_cloned_held(other, k, other.as_map()[k]);
                assert(self.holds(k, v));
            }
        }
        assert forall|k: Seq<u8>| #[trigger] self.as_map().dom().contains(k) implies cloned::<T>(
            self.as_map()[k],
            other.as_map()[k],
        ) by {
            let w = self.lemma_cloned_holds(other, k, self.as_map()[k]);
            assert(other.as_map().contains_pair(k, w));
        }
    }
}

impl<T: Clone> Clone for TrieNode<T> {
    /// Clones the subtree node by node.
    fn clone(&self) -> (res: Self)
        ensures
            self.shape().cloned_to(res.shape()),
            self.wf() ==> res.wf(),
        decreases self,
    {
        let mut children: Vec<Box<TrieNode<T>>> = Vec::new();
        let mut i: usize = 0;
        while i < self.children.len()
            invariant
                i <= self.children@.len(),
                children@.len() == i,
                forall|j: int|
                    0 <= j < i ==> (#[trigger] self.children@[j]).shape().cloned_to(
                        children@[j].shape(),
                    ),
            decreases self.children@.len() - i,
        {
            let child = (&*self.children[i]).clone();
            children.push(Box::new(child));
            i += 1;
        }
        let res = TrieNode { key: self.key.clone(), value: self.value.clone(), children };
        proof {
            self.shape().lemma_cloned_wf(res.shape());
        }
        res
    }
}

impl<T: Clone> Clone for Trie<T> {
    /// Clones the trie node by node.
    fn clone(&self) -> (res: Self)
        ensures
            self.shape().cloned_to(res.shape()),
            self.wf() ==> res.wf(),
    {
        let mut children: Vec<TrieNode<T>> = Vec::new();
        let mut i: usize = 0;
        while i < self.children.len()
            invariant
                i <= self.children@.len(),
                children@.len() == i,
                forall|j: int|
                    0 <= j < i ==> (#[trigger] self.children@[j]).shape().cloned_to(
                        children@[j].shape(),
                    ),
            decreases self.children@.len() - i,
        {
            let child = self.children[i].clone();
            children.push(child);
            i += 1;
        }
        let res = Trie { value: self.value.clone(), children };
        proof {
            self.shape().lemma_cloned_wf(res.shape());
        }
        res
    }
}

} // verus!
