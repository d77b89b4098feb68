//! The nodes of the tree, and lookup, insertion and deletion below a node.

use crate::forest::{cut_among, lemma_find_is, put_among};
use crate::shape::Shape;
use crate::{get_match_len, match_len};
use vstd::prelude::*;
use vstd::slice::slice_subrange;

verus! {

/// One node of the tree: a key fragment, the value of the key that ends
/// here, if any, and the subtrees of the keys that go on.
#[derive(Debug, PartialEq)]
pub struct TrieNode<T> {
    /// The key associated with this node.
    pub key: Vec<u8>,
    /// The value associated with this node, if any.
    pub value: Option<T>,
    /// All branches from this node.
    pub children: Vec<Box<TrieNode<T>>>,
}

impl<T> View for TrieNode<T> {
    type V = Map<Seq<u8>, T>;

    /// The keys stored in the subtree, each with its value. Keys are
    /// relative to the node's parent, so they begin with the fragment.
    open spec fn view(&self) -> Map<Seq<u8>, T> {
        self.shape().as_map()
    }
}

impl<T> TrieNode<T> {
    /// The subtree as a value: fragment, value and the shapes of the
    /// children, in their order.
    pub open spec fn shape(self) -> Shape<T>
        decreases self,
    {
        Shape {
            fragment: self.key@,
            value: self.value,
            children: Seq::new(
                self.children@.len(),
                |i: int|
                    if 0 <= i < self.children@.len() {
                        self.children@[i].shape()
                    } else {
                        arbitrary()
                    },
            ),
        }
    }

    /// The subtree is compressed: see `Shape::wf`.
    pub open spec fn wf(self) -> bool {
        self.shape().wf()
    }

    /// The node stands for the empty tree: no fragment, no value, no
    /// children.
    pub open spec fn blank(self) -> bool {
        self.shape().blank()
    }

    /// The shape of a node, field by field, and the fragments one level
    /// down.
    pub proof fn lemma_shape(self)
        ensures
            self.shape().fragment == self.key@,
            self.shape().value == self.value,
            self.shape().children.len() == self.children@.len(),
            forall|i: int|
                0 <= i < self.children@.len() ==> #[trigger] self.shape().children[i]
                    == self.children@[i].shape(),
            forall|i: int|
                0 <= i < self.children@.len() ==> (#[trigger] self.children@[i]).shape().fragment
                    == self.children@[i].key@,
    {
        reveal_with_fuel(TrieNode::shape, 2);
    }

    /// Creates a blank node, which stands for the empty tree.
    pub fn new() -> (node: Self)
        ensures
            node.shape() == Shape::<T>::empty(),
            node.blank(),
            node.wf(),
            node@ == Map::<Seq<u8>, T>::empty(),
    {
        let node = TrieNode { key: Vec::new(), value: None, children: Vec::new() };
        proof {
            assert(node.shape().children =~= Seq::<Shape<T>>::empty());
            assert(node@ =~= Map::<Seq<u8>, T>::empty());
        }
        node
    }

    /// Tells whether the node is blank.
    pub fn is_blank(&self) -> (b: bool)
        ensures
            b == self.blank(),
    {
        self.key.is_empty() && self.value.is_none() && self.children.is_empty()
    }

    /// Retrieve the value associated with `key`. If the key is not found,
    /// `None` is returned.
    pub fn get(&self, key: &[u8]) -> (r: Option<&T>)
        requires
            self.wf(),
        ensures
            r == (if self@.dom().contains(key@) {
                Some(&self@[key@])
            } else {
                None
            }),
        decreases self, 1nat,
    {
        let ghost s = self.shape();
        proof {
            s.lemma_view_holds();
        }
        let m = get_match_len(self.key.as_slice(), key);
        if m == self.key.len() {
            if m == key.len() {
                let r = self.value.as_ref();
                proof {
                    if self.value is Some {
                        assert(s.holds(key@, self.value->0));
                    }
                }
                r
            } else {
                let rest = slice_subrange(key, m, key.len());
                let r = self.get_children(rest);
                proof {
                    assert forall|w: T| s.holds(key@, w) == s.holds_below(rest@, w) by {}
                }
                r
            }
        } else {
            None
        }
    }

    /// Looks `key` up in the first child that begins like it.
    fn get_children(&self, key: &[u8]) -> (r: Option<&T>)
        requires
            self.shape().branches_wf(),
            key@.len() > 0,
        ensures
            match r {
                Some(v) => self.shape().holds_below(key@, *v),
                None => forall|w: T| !self.shape().holds_below(key@, w),
            },
        decreases self, 0nat,
    {
        let ghost s = self.shape();
        let mut i: usize = 0;
        while i < self.children.len()
            invariant
                i <= self.children@.len(),
                s == self.shape(),
                s.children.len() == self.children@.len(),
                s.branches_wf(),
                key@.len() > 0,
                forall|j: int| 0 <= j < i ==> !(#[trigger] s.children[j]).begins_with(key@[0]),
            decreases self.children@.len() - i,
        {
            if self.children[i].prefix_match(key) {
                proof {
                    assert(s.children[i as int] == self.children@[i as int].shape());
                    s.children[i as int].lemma_view_holds();
                }
                return self.children[i].get(key);
            }
            i += 1;
        }
        None
    }

    /// Returns true if this node's key and the given `key` share a common
    /// prefix that is not empty.
    pub fn prefix_match(&self, key: &[u8]) -> (b: bool)
        ensures
            b == (match_len(self.key@, key@) > 0),
            b == (key@.len() > 0 && self.shape().begins_with(key@[0])),
    {
        get_match_len(self.key.as_slice(), key) > 0
    }

    /// Inserts a key-value pair into the subtree. A value that the key had
    /// before is replaced.
    pub fn insert(&mut self, key: Vec<u8>, value: T)
        requires
            old(self).wf(),
        ensures
            final(self).wf(),
            final(self)@ == old(self)@.insert(key@, value),
            final(self).shape() == old(self).shape().put(key@, value),
        decreases *old(self), 1nat,
    {
        let ghost s = old(self).shape();
        proof {
            s.lemma_put(key@, value);
        }
        if self.is_blank() {
            self.key = key;
            self.value = Some(value);
            proof {
                assert(self.shape().children =~= Seq::<Shape<T>>::empty());
            }
            return ;
        }
        let m = get_match_len(self.key.as_slice(), key.as_slice());
        let mut key = key;
        let rest = key.split_off(m);
        if m < self.key.len() {
            self.split(m);
            if rest.is_empty() {
                self.value = Some(value);
            } else {
                self.add_new_child(rest, Some(value));
            }
        } else if rest.is_empty() {
            self.value = Some(value);
        } else {
            self.insert_children(rest, value);
        }
    }

    /// Splits the node in two at `at`: the node keeps the first `at` bytes
    /// of its fragment, and a single child takes the rest of it, the value
    /// and the children.
    fn split(&mut self, at: usize)
        requires
            at <= old(self).key@.len(),
        ensures
            final(self).shape() == old(self).shape().split(at as int),
    {
        let suffix = self.key.split_off(at);
        let mut children: Vec<Box<TrieNode<T>>> = Vec::new();
        std::mem::swap(&mut children, &mut self.children);
        let lower = TrieNode { key: suffix, value: self.value.take(), children };
        proof {
            lower.lemma_shape();
        }
        self.children.push(Box::new(lower));
        proof {
            assert(self.shape().children =~= old(self).shape().split(at as int).children);
        }
    }

    /// Create a new child node with the given key-value pair and insert it
    /// as the last child of this node.
    fn add_new_child(&mut self, key: Vec<u8>, value: Option<T>)
        ensures
            final(self).shape() == (Shape {
                children: old(self).shape().children.push(
                    Shape { fragment: key@, value: value, children: Seq::empty() },
                ),
                ..old(self).shape()
            }),
    {
        let child = TrieNode { key: key, value: value, children: Vec::new() };
        proof {
            assert(child.shape().children =~= Seq::<Shape<T>>::empty());
        }
        self.children.push(Box::new(child));
        proof {
            assert(self.shape().children =~= old(self).shape().children.push(child.shape()));
        }
    }

    /// Insert this key-value pair into the children of this node: into the
    /// first child that begins like the key, or as a new last child.
    fn insert_children(&mut self, key: Vec<u8>, value: T)
        requires
            old(self).shape().branches_wf(),
            key@.len() > 0,
        ensures
            final(self).shape() == (Shape {
                children: put_among(old(self).shape().children, key@, value),
                ..old(self).shape()
            }),
        decreases *old(self), 0nat,
    {
        let ghost s = old(self).shape();
        let mut i: usize = 0;
        while i < self.children.len()
            invariant
                *self == *old(self),
                s == self.shape(),
                i <= self.children@.len(),
                s.branches_wf(),
                key@.len() > 0,
                forall|j: int| 0 <= j < i ==> !(#[trigger] s.children[j]).begins_with(key@[0]),
            decreases self.children@.len() - i,
        {
            if self.children[i].prefix_match(key.as_slice()) {
                proof {
                    lemma_find_is(s.children, key@[0], i as int);
                }
                self.children[i].insert(key, value);
                proof {
                    assert(self.shape().children =~= put_among(s.children, key@, value));
                }
                return ;
            }
            i += 1;
        }
        proof {
            lemma_find_is(s.children, key@[0], s.children.len() as int);
        }
        self.add_new_child(key, Some(value));
    }

    /// Deletes the value stored under `key` from the subtree and compresses
    /// what is left. If `key` has no value, nothing happens.
    pub fn delete(&mut self, key: &[u8])
        requires
            old(self).wf(),
        ensures
            final(self).wf(),
            final(self)@ == old(self)@.remove(key@),
            final(self).shape() == old(self).shape().cut(key@),
        decreases *old(self), 1nat,
    {
        let ghost s = old(self).shape();
        proof {
            s.lemma_cut(key@);
        }
        let m = get_match_len(self.key.as_slice(), key);
        if m < self.key.len() {
            return ;
        }
        if m == key.len() {
            if self.value.is_none() {
                return ;
            }
            self.value = None;
        } else {
            let rest = slice_subrange(key, m, key.len());
            self.delete_children(rest);
        }
        self.squeeze();
    }

    /// Deletes `key` from the first child that begins like it, and drops
    /// the child if nothing is left of it.
    fn delete_children(&mut self, key: &[u8])
        requires
            old(self).shape().branches_wf(),
            key@.len() > 0,
        ensures
            final(self).shape() == (Shape {
                children: cut_among(old(self).shape().children, key@),
                ..old(self).shape()
            }),
        decreases *old(self), 0nat,
    {
        let ghost s = old(self).shape();
        let mut i: usize = 0;
        while i < self.children.len()
            invariant
                *self == *old(self),
                s == self.shape(),
                i <= self.children@.len(),
                s.branches_wf(),
                key@.len() > 0,
                forall|j: int| 0 <= j < i ==> !(#[trigger] s.children[j]).begins_with(key@[0]),
            decreases self.children@.len() - i,
        {
            if self.children[i].prefix_match(key) {
                proof {
                    lemma_find_is(s.children, key@[0], i as int);
                }
                self.children[i].delete(key);
                if self.children[i].is_blank() {
                    self.children.remove(i);
                }
                proof {
                    assert(self.shape().children =~= cut_among(s.children, key@));
                }
                return ;
            }
            i += 1;
        }
        proof {
            lemma_find_is(s.children, key@[0], s.children.len() as int);
        }
    }

    /// Restores compression at a node that may have lost its value or a
    /// child: without a value, a node with no child becomes blank, and a
    /// node with one child is merged with it.
    fn squeeze(&mut self)
        ensures
            final(self).shape() == old(self).shape().squeezed(),
    {
        proof {
            old(self).lemma_shape();
        }
        if self.value.is_none() {
            if self.children.len() == 0 {
                self.key.clear();
            } else if self.children.len() == 1 {
                let child = self.children.pop().unwrap();
                let TrieNode { key, value, children } = *child;
                let mut key = key;
                self.key.append(&mut key);
                self.value = value;
                self.children = children;
            }
        }
    }
}

} // verus!
