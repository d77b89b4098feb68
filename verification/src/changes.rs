//! Insertion and deletion on the model keep it compressed and change what
//! it stores by one pair.

use crate::forest::{
    any_holds, cut_among, find, forest_with, forest_without, is_first_with, lemma_child_removed,
    lemma_child_with, lemma_child_without, lemma_find, lemma_find_is, lemma_leaf_pushed,
    lemma_one_branch, put_among, siblings_wf,
};
use crate::shape::Shape;
use crate::{lemma_match_len, lemma_match_len_is, match_len};
use vstd::prelude::*;

verus! {

impl<T> Shape<T> {
    /// Squeezing a node whose children are compressed gives a compressed
    /// subtree that stores the same pairs. The fragment only grows, unless
    /// the node becomes blank. A compressed subtree is left as it is.
    pub proof fn lemma_squeezed(self)
        requires
            self.branches_wf(),
        ensures
            self.squeezed().wf(),
            forall|q: Seq<u8>, w: T| self.squeezed().holds(q, w) == self.holds(q, w),
            self.squeezed().blank() || self.fragment.is_prefix_of(self.squeezed().fragment),
            self.wf() ==> self.squeezed() == self,
    {
        let t = self.squeezed();
        if self.value is None && self.children.len() == 1 {
            assert(self.children[0].wf());
            assert forall|q: Seq<u8>, w: T| t.holds(q, w) == self.holds(q, w) by {
                Self::lemma_split_holds(t, self, q, w);
            }
        }
        if self.wf() && self.value is None && self.children.len() == 0 {
            assert(self.fragment =~= Seq::<u8>::empty());
        }
    }

    /// Insertion keeps a subtree compressed and adds the pair to what it
    /// stores, in place of any value that the key had. The fragment of the
    /// topmost node shrinks to what it has in common with the key.
    pub proof fn lemma_put(self, k: Seq<u8>, v: T)
        requires
            self.wf(),
        ensures
            self.put(k, v).wf(),
            Self::stores_with(self, self.put(k, v), k, v),
            self.put(k, v).as_map() == self.as_map().insert(k, v),
            self.put(k, v).fragment == self.fragment_with(k),
        decreases self, 1nat,
    {
        let t = self.put(k, v);
        lemma_match_len(self.fragment, k);
        let m = match_len(self.fragment, k);
        let rest = k.skip(m);
        assert(k =~= self.fragment.take(m) + rest);
        if self.blank() {
            assert forall|q: Seq<u8>, w: T|
                t.holds(q, w) <==> if q == k {
                    w == v
                } else {
                    self.holds(q, w)
                } by {
                if k.is_prefix_of(q) && q.len() == k.len() {
                    assert(q =~= k);
                }
            }
        } else if m < self.fragment.len() {
            let upper = self.split(m);
            assert(self.fragment =~= upper.fragment + upper.children[0].fragment);
            assert(upper.children[0].wf());
            assert forall|q: Seq<u8>, w: T| upper.holds(q, w) == self.holds(q, w) by {
                Self::lemma_split_holds(self, upper, q, w);
            }
            if rest.len() == 0 {
                Self::lemma_value_set(upper, t, v);
            } else {
                lemma_leaf_pushed(upper.children, t.children, rest, v);
                Self::lemma_below_with(upper, t, rest, v);
                assert(t.children.len() == 2);
            }
            assert(t.wf());
        } else {
            assert(self.fragment.take(m) =~= self.fragment);
            Self::lemma_put_below(self, rest, v);
        }
        Self::lemma_stores_with_view(self, t, k, v);
    }

    /// Insertion among compressed siblings keeps them so and adds the pair
    /// to what they store.
    pub proof fn lemma_put_among(nodes: Seq<Self>, k: Seq<u8>, v: T)
        requires
            siblings_wf(nodes),
            k.len() > 0,
        ensures
            siblings_wf(put_among(nodes, k, v)),
            forest_with(nodes, put_among(nodes, k, v), k, v),
            put_among(nodes, k, v).len() >= nodes.len(),
            put_among(nodes, k, v).len() >= 1,
        decreases nodes, 0nat,
    {
        let after = put_among(nodes, k, v);
        lemma_find(nodes, k[0]);
        let i = find(nodes, k[0]);
        if i < nodes.len() {
            nodes[i].lemma_put(k, v);
            lemma_match_len(nodes[i].fragment, k);
            lemma_child_with(nodes, after, i, k, v);
        } else {
            lemma_leaf_pushed(nodes, after, k, v);
        }
    }

    /// Insertion at a node that the key has come to keeps the children
    /// compressed and adds the pair to what the node stores. A compressed
    /// node that is not blank stays compressed.
    pub proof fn lemma_put_below(self, rest: Seq<u8>, v: T)
        requires
            self.branches_wf(),
        ensures
            self.put_below(rest, v).branches_wf(),
            Self::stores_with(self, self.put_below(rest, v), self.fragment + rest, v),
            self.wf() && !self.blank() ==> self.put_below(rest, v).wf(),
        decreases self, 0nat,
    {
        let t = self.put_below(rest, v);
        if rest.len() == 0 {
            Self::lemma_value_set(self, t, v);
        } else {
            Self::lemma_put_among(self.children, rest, v);
            Self::lemma_below_with(self, t, rest, v);
        }
    }

    /// A leaf whose key is inserted again is the leaf of the new value.
    pub proof fn lemma_leaf_put(k: Seq<u8>, first: T, second: T)
        ensures
            Self::leaf(k, first).put(k, second) == Self::leaf(k, second),
    {
        lemma_match_len_is(k, k, k.len() as int);
    }

    /// A second insertion under the same key makes no new node: the subtree
    /// is the one that the second insertion alone would have made.
    pub proof fn lemma_put_twice(self, k: Seq<u8>, first: T, second: T)
        ensures
            self.put(k, first).put(k, second) == self.put(k, second),
        decreases self, 1nat,
    {
        let t = self.put(k, first);
        lemma_match_len(self.fragment, k);
        let m = match_len(self.fragment, k);
        let rest = k.skip(m);
        if self.blank() {
            Self::lemma_leaf_put(k, first, second);
        } else if m < self.fragment.len() {
            let upper = self.split(m);
            lemma_match_len_is(t.fragment, k, m);
            if rest.len() > 0 {
                assert(is_first_with(t.children, rest[0], 1));
                Self::lemma_leaf_put(rest, first, second);
                assert(t.children.update(1, Self::leaf(rest, second)) =~= upper.children.push(
                    Self::leaf(rest, second),
                ));
            }
        } else if rest.len() > 0 {
            Self::lemma_put_among_twice(self.children, rest, first, second);
            assert(t.children == put_among(self.children, rest, first));
            assert(t.put(k, second).children == put_among(t.children, rest, second));
        }
    }

    /// A second insertion under the same key among siblings makes no new
    /// node.
    pub proof fn lemma_put_among_twice(nodes: Seq<Self>, k: Seq<u8>, first: T, second: T)
        requires
            k.len() > 0,
        ensures
            put_among(put_among(nodes, k, first), k, second) == put_among(nodes, k, second),
        decreases nodes, 0nat,
    {
        lemma_find(nodes, k[0]);
        let i = find(nodes, k[0]);
        let mid = put_among(nodes, k, first);
        if i < nodes.len() {
            let c = nodes[i];
            c.lemma_put_twice(k, first, second);
            lemma_match_len(c.fragment, k);
            assert(is_first_with(mid, k[0], i));
        } else {
            let n = nodes.len() as int;
            lemma_find_is(mid, k[0], n);
            Self::lemma_leaf_put(k, first, second);
        }
    }

    /// A second insertion under the same key at a node that the key has
    /// come to makes no new node.
    pub proof fn lemma_put_below_twice(self, rest: Seq<u8>, first: T, second: T)
        ensures
            self.put_below(rest, first).put_below(rest, second) == self.put_below(rest, second),
    {
        if rest.len() > 0 {
            Self::lemma_put_among_twice(self.children, rest, first, second);
        }
    }

    /// Deletion keeps a subtree compressed and takes the key out of what it
    /// stores. The fragment of the topmost node only grows, unless the
    /// subtree becomes blank. Where the key is not stored, nothing changes.
    pub proof fn lemma_cut(self, k: Seq<u8>)
        requires
            self.wf(),
        ensures
            self.cut(k).wf(),
            Self::stores_without(self, self.cut(k), k),
            self.cut(k).as_map() == self.as_map().remove(k),
            self.cut(k).blank() || self.fragment.is_prefix_of(self.cut(k).fragment),
            (forall|w: T| !self.holds(k, w)) ==> self.cut(k) == self,
        decreases self,
    {
        let t = self.cut(k);
        lemma_match_len(self.fragment, k);
        let m = match_len(self.fragment, k);
        let rest = k.skip(m);
        if m < self.fragment.len() {
            // the fragment does not begin `k`: nothing is stored under `k`
        } else if rest.len() == 0 {
            if self.value is Some {
                let mid = Shape { value: None, ..self };
                Self::lemma_value_cleared(self, mid);
                mid.lemma_squeezed();
                assert(self.holds(k, self.value->0));
            }
        } else {
            let mid = self.cut_below(rest);
            Self::lemma_cut_among(self.children, rest);
            Self::lemma_below_without(self, mid, rest);
            mid.lemma_squeezed();
            assert forall|w: T|
                #![trigger self.holds(k, w)]
                #![trigger any_holds(self.children, rest, w)]
                self.holds(k, w) == any_holds(self.children, rest, w) by {}
        }
        Self::lemma_stores_without_view(self, t, k);
    }

    /// Deletion at a node that the key has come to keeps the children
    /// compressed and takes the key out of what the node stores. Where the
    /// key is not stored, nothing changes.
    pub proof fn lemma_cut_below(self, rest: Seq<u8>)
        requires
            self.branches_wf(),
        ensures
            self.cut_below(rest).branches_wf(),
            Self::stores_without(self, self.cut_below(rest), self.fragment + rest),
            (forall|w: T| !self.holds(self.fragment + rest, w)) ==> self.cut_below(rest) == self,
    {
        let t = self.cut_below(rest);
        let k = self.fragment + rest;
        if rest.len() == 0 {
            Self::lemma_value_cleared(self, t);
            if self.value is Some {
                assert(self.holds(k, self.value->0));
            }
        } else {
            Self::lemma_cut_among(self.children, rest);
            Self::lemma_below_without(self, t, rest);
            assert(k.skip(self.fragment.len() as int) =~= rest);
            assert forall|w: T|
                #![trigger self.holds(k, w)]
                #![trigger any_holds(self.children, rest, w)]
                self.holds(k, w) == any_holds(self.children, rest, w) by {}
        }
    }

    /// A leaf whose key is deleted becomes blank.
    pub proof fn lemma_leaf_cut(k: Seq<u8>, v: T)
        ensures
            Self::leaf(k, v).cut(k) == Self::empty(),
    {
        lemma_match_len_is(k, k, k.len() as int);
    }

    /// Deletion undoes insertion: where a key is not stored, inserting and
    /// then deleting it gives back the subtree, node for node.
    pub proof fn lemma_put_cut(self, k: Seq<u8>, v: T)
        requires
            self.wf(),
            forall|w: T| !self.holds(k, w),
        ensures
            self.put(k, v).cut(k) == self,
        decreases self, 1nat,
    {
        let t = self.put(k, v);
        lemma_match_len(self.fragment, k);
        let m = match_len(self.fragment, k);
        let rest = k.skip(m);
        if self.blank() {
            Self::lemma_leaf_cut(k, v);
            assert(self.fragment =~= Seq::<u8>::empty());
            assert(self.children =~= Seq::<Self>::empty());
        } else if m < self.fragment.len() {
            let upper = self.split(m);
            lemma_match_len_is(t.fragment, k, m);
            assert(upper.fragment + upper.children[0].fragment =~= self.fragment);
            if rest.len() > 0 {
                assert(is_first_with(t.children, rest[0], 1));
                lemma_find_is(t.children, rest[0], 1);
                Self::lemma_leaf_cut(rest, v);
                assert(t.children.remove(1) =~= upper.children);
            }
        } else if rest.len() == 0 {
            assert(k =~= self.fragment);
            if self.value is Some {
                assert(self.holds(k, self.value->0));
            }
            assert((Shape { value: None, ..t }) == self);
            self.lemma_squeezed();
        } else {
            assert forall|w: T| !any_holds(self.children, rest, w) by {
                assert(self.holds(k, w) == any_holds(self.children, rest, w));
            }
            Self::lemma_put_cut_among(self.children, rest, v);
            lemma_find(self.children, rest[0]);
            assert(t.children == put_among(self.children, rest, v));
            assert(t.cut(k) == (Shape { children: cut_among(t.children, rest), ..t }).squeezed());
            self.lemma_squeezed();
        }
    }

    /// Deletion undoes insertion among compressed siblings.
    pub proof fn lemma_put_cut_among(nodes: Seq<Self>, k: Seq<u8>, v: T)
        requires
            siblings_wf(nodes),
            k.len() > 0,
            forall|w: T| !any_holds(nodes, k, w),
        ensures
            cut_among(put_among(nodes, k, v), k) == nodes,
        decreases nodes, 0nat,
    {
        lemma_find(nodes, k[0]);
        let i = find(nodes, k[0]);
        let mid = put_among(nodes, k, v);
        if i < nodes.len() {
            let c = nodes[i];
            assert forall|w: T| !c.holds(k, w) by {
                assert(!any_holds(nodes, k, w));
            }
            c.lemma_put_cut(k, v);
            lemma_match_len(c.fragment, k);
            assert(is_first_with(mid, k[0], i));
            lemma_find_is(mid, k[0], i);
            assert(mid.update(i, c) =~= nodes);
        } else {
            let n = nodes.len() as int;
            assert(is_first_with(mid, k[0], n));
            lemma_find_is(mid, k[0], n);
            Self::lemma_leaf_cut(k, v);
            assert(mid.remove(n) =~= nodes);
        }
    }

    /// Deletion undoes insertion at a node that the key has come to.
    pub proof fn lemma_put_cut_below(self, rest: Seq<u8>, v: T)
        requires
            self.branches_wf(),
            forall|w: T| !self.holds(self.fragment + rest, w),
        ensures
            self.put_below(rest, v).cut_below(rest) == self,
    {
        let k = self.fragment + rest;
        if rest.len() == 0 {
            assert(k =~= self.fragment);
            if self.value is Some {
                assert(self.holds(k, self.value->0));
            }
        } else {
            assert(k.skip(self.fragment.len() as int) =~= rest);
            assert forall|w: T| !any_holds(self.children, rest, w) by {
                assert(self.holds(k, w) == any_holds(self.children, rest, w));
            }
            Self::lemma_put_cut_among(self.children, rest, v);
        }
    }

    /// Deletion among compressed siblings keeps them so and takes the key
    /// out of what they store. Where the key is not stored, nothing
    /// changes.
    pub proof fn lemma_cut_among(nodes: Seq<Self>, k: Seq<u8>)
        requires
            siblings_wf(nodes),
            k.len() > 0,
        ensures
            siblings_wf(cut_among(nodes, k)),
            forest_without(nodes, cut_among(nodes, k), k),
            (forall|w: T| !any_holds(nodes, k, w)) ==> cut_among(nodes, k) == nodes,
        decreases nodes,
    {
        let after = cut_among(nodes, k);
        lemma_find(nodes, k[0]);
        let i = find(nodes, k[0]);
        if i < nodes.len() {
            let child = nodes[i].cut(k);
            nodes[i].lemma_cut(k);
            if child.blank() {
                lemma_child_removed(nodes, after, i, k);
            } else {
                lemma_child_without(nodes, after, i, k);
            }
            if forall|w: T| !any_holds(nodes, k, w) {
                assert forall|w: T| !nodes[i].holds(k, w) by {
                    lemma_one_branch(nodes, i, k, w);
                }
            }
        }
    }
}

} // verus!
