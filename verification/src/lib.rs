//! A compressed prefix tree that maps byte-string keys to values.
//!
//! A [`Trie`] is a forest of [`TrieNode`]s, with a place of its own for the
//! value of the empty key. Every node owns a fragment of the keys that pass
//! through it; sibling fragments never begin with the same byte, so each key
//! follows at most one path. Insertion splits a node where a new key leaves
//! its fragment half-way, and deletion merges a node that is left without a
//! value with its only child.
//!
//! The contracts speak of two models. The view of a trie or a node is the
//! `Map` from keys to values. Its [`Shape`] is the tree itself as a value,
//! on which `put` and `cut` say node for node what insertion and deletion
//! do.

use crate::forest::{cut_among, lemma_find_is, lemma_one_branch, put_among};
use crate::node::TrieNode;
use crate::shape::Shape;
use vstd::prelude::*;

pub mod changes;
pub mod cloning;
pub mod forest;
pub mod node;
pub mod shape;
pub mod stored;
pub mod theorems;

verus! {

/// A compressed prefix tree: the value of the empty key, and the subtrees
/// of all other keys, one for each first byte in use.
#[derive(Debug, PartialEq)]
pub struct Trie<T> {
    /// The value of the empty key, which no node can hold.
    pub value: Option<T>,
    /// The top-level nodes.
    pub children: Vec<TrieNode<T>>,
}

impl<T> View for Trie<T> {
    type V = Map<Seq<u8>, T>;

    /// The keys stored in the trie, each with its value.
    open spec fn view(&self) -> Map<Seq<u8>, T> {
        self.shape().as_map()
    }
}

impl<T> Trie<T> {
    /// The trie as one subtree: a root with the empty fragment, the value
    /// of the empty key, and the shapes of the top-level nodes as its
    /// children.
    pub open spec fn shape(self) -> Shape<T> {
        Shape {
            fragment: Seq::empty(),
            value: self.value,
            children: self.children@.map_values(|n: TrieNode<T>| n.shape()),
        }
    }

    /// Every top-level node is a compressed subtree with a non-empty
    /// fragment, and no two of them share a non-empty prefix.
    pub open spec fn wf(self) -> bool {
        self.shape().branches_wf()
    }

    /// What insertion does to a root: the children stay compressed, and
    /// the map gains the pair.
    proof fn lemma_inserted(s: Shape<T>, k: Seq<u8>, v: T)
        requires
            s.branches_wf(),
            s.fragment.len() == 0,
        ensures
            s.put_below(k, v).branches_wf(),
            s.put_below(k, v).as_map() == s.as_map().insert(k, v),
    {
        s.lemma_put_below(k, v);
        Shape::lemma_stores_with_view(s, s.put_below(k, v), k, v);
    }

    /// What deletion does to a root: the children stay compressed, and the
    /// map loses the key.
    proof fn lemma_deleted(s: Shape<T>, k: Seq<u8>)
        requires
            s.branches_wf(),
            s.fragment.len() == 0,
        ensures
            s.cut_below(k).branches_wf(),
            s.cut_below(k).as_map() == s.as_map().remove(k),
    {
        s.lemma_cut_below(k);
        Shape::lemma_stores_without_view(s, s.cut_below(k), k);
    }

    /// Creates a new Trie, which stores nothing.
    pub fn new() -> (trie: Self)
        ensures
            trie.shape() == Shape::<T>::empty(),
            trie.wf(),
            trie@ == Map::<Seq<u8>, T>::empty(),
    {
        let trie = Trie { value: None, children: Vec::new() };
        proof {
            assert(trie.shape().children =~= Seq::<Shape<T>>::empty());
            assert(trie@ =~= Map::<Seq<u8>, T>::empty());
        }
        trie
    }

    /// Retrieves the value associated with `key` from the trie, if any.
    pub fn get(&self, key: &[u8]) -> (r: Option<&T>)
        requires
            self.wf(),
        ensures
            r == (if self@.dom().contains(key@) {
                Some(&self@[key@])
            } else {
                None
            }),
    {
        let ghost s = self.shape();
        if key.len() == 0 {
            let r = self.value.as_ref();
            proof {
                if self.value is Some {
                    assert(s.holds(key@, self.value->0));
                }
            }
            return r;
        }
        let mut i: usize = 0;
        while i < self.children.len()
            invariant
                i <= self.children@.len(),
                s == self.shape(),
                s.branches_wf(),
                key@.len() > 0,
                forall|j: int| 0 <= j < i ==> !(#[trigger] s.children[j]).begins_with(key@[0]),
            decreases self.children@.len() - i,
        {
            if self.children[i].prefix_match(key) {
                let r = self.children[i].get(key);
                proof {
                    let child = s.children[i as int];
                    child.lemma_view_holds();
                    assert(key@.skip(0) =~= key@);
                    assert forall|w: T| s.holds(key@, w) == child.holds(key@, w) by {
                        lemma_one_branch(s.children, i as int, key@, w);
                    }
                }
                return r;
            }
            i += 1;
        }
        proof {
            assert(key@.skip(0) =~= key@);
            if self@.dom().contains(key@) {
                assert(s.holds_below(key@, self@[key@]));
            }
        }
        None
    }

    /// Inserts the given key-value pair into the trie. A value that the key
    /// had before is replaced.
    pub fn insert(&mut self, key: Vec<u8>, value: T)
        requires
            old(self).wf(),
        ensures
            final(self).wf(),
            final(self)@ == old(self)@.insert(key@, value),
            final(self).shape() == old(self).shape().put_below(key@, value),
    {
        let ghost s = old(self).shape();
        let ghost k = key@;
        proof {
            Self::lemma_inserted(s, k, value);
        }
        if key.len() == 0 {
            self.value = Some(value);
            return ;
        }
        let mut i: usize = 0;
        while i < self.children.len()
            invariant
                *self == *old(self),
                s == self.shape(),
                i <= self.children@.len(),
                s.branches_wf(),
                key@ == k,
                k.len() > 0,
                forall|j: int| 0 <= j < i ==> !(#[trigger] s.children[j]).begins_with(k[0]),
            decreases self.children@.len() - i,
        {
            if self.children[i].prefix_match(key.as_slice()) {
                proof {
                    lemma_find_is(s.children, k[0], i as int);
                }
                self.children[i].insert(key, value);
                proof {
                    assert(self.shape().children =~= put_among(s.children, k, value));
                    Self::lemma_inserted(s, k, value);
                }
                return ;
            }
            i += 1;
        }
        proof {
            lemma_find_is(s.children, k[0], s.children.len() as int);
        }
        let mut node = TrieNode::new();
        node.insert(key, value);
        self.children.push(node);
        proof {
            assert(self.shape().children =~= put_among(s.children, k, value));
        }
    }

    /// Deletes the value stored under `key` from the trie and compresses
    /// what is left. If `key` has no value, nothing happens.
    pub fn delete(&mut self, key: &[u8])
        requires
            old(self).wf(),
        ensures
            final(self).wf(),
            final(self)@ == old(self)@.remove(key@),
            final(self).shape() == old(self).shape().cut_below(key@),
    {
        let ghost s = old(self).shape();
        proof {
            Self::lemma_deleted(s, key@);
        }
        if key.len() == 0 {
            self.value = None;
            return ;
        }
        let mut i: usize = 0;
        while i < self.children.len()
            invariant
                *self == *old(self),
                s == self.shape(),
                i <= self.children@.len(),
                s.branches_wf(),
                key@.len() > 0,
                forall|j: int| 0 <= j < i ==> !(#[trigger] s.children[j]).begins_with(key@[0]),
            decreases self.children@.len() - i,
        {
            if self.children[i].prefix_match(key) {
                proof {
                    lemma_find_is(s.children, key@[0], i as int);
                }
                self.children[i].delete(key);
                if self.children[i].is_blank() {
                    self.children.remove(i);
                }
                proof {
                    assert(self.shape().children =~= cut_among(s.children, key@));
                    Self::lemma_deleted(s, key@);
                }
                return ;
            }
            i += 1;
        }
        proof {
            lemma_find_is(s.children, key@[0], s.children.len() as int);
        }
    }
}

/// `n` is the length of the longest common prefix of `a` and `b`: the two
/// agree on their first `n` bytes, and either one of them ends there or
/// they differ in the byte that follows.
pub open spec fn is_match_len(a: Seq<u8>, b: Seq<u8>, n: int) -> bool {
    &&& 0 <= n <= a.len()
    &&& n <= b.len()
    &&& forall|i: int| 0 <= i < n ==> a[i] == b[i]
    &&& (n < a.len() && n < b.len() ==> a[n] != b[n])
}

/// The length of the longest common prefix of `a` and `b`.
pub open spec fn match_len(a: Seq<u8>, b: Seq<u8>) -> int {
    choose|n: int| is_match_len(a, b, n)
}

/// Two sequences have exactly one longest common prefix: whatever
/// satisfies `is_match_len` is the value of `match_len`.
pub proof fn lemma_match_len_is(a: Seq<u8>, b: Seq<u8>, n: int)
    requires
        is_match_len(a, b, n),
    ensures
        match_len(a, b) == n,
{
}

/// Every two sequences have a longest common prefix, and `match_len` is
/// its length.
pub proof fn lemma_match_len(a: Seq<u8>, b: Seq<u8>)
    ensures
        is_match_len(a, b, match_len(a, b)),
    decreases a.len(),
{
    if a.len() > 0 && b.len() > 0 && a[0] == b[0] {
        lemma_match_len(a.skip(1), b.skip(1));
        let n = match_len(a.skip(1), b.skip(1));
        assert forall|i: int| 0 <= i < n + 1 implies a[i] == b[i] by {
            if i > 0 {
                assert(a.skip(1)[i - 1] == b.skip(1)[i - 1]);
            }
        }
        assert(is_match_len(a, b, n + 1));
    } else {
        assert(is_match_len(a, b, 0));
    }
}

/// Returns the length of the common prefix shared between two byte strings.
pub fn get_match_len(a: &[u8], b: &[u8]) -> (n: usize)
    ensures
        is_match_len(a@, b@, n as int),
        n == match_len(a@, b@),
{
    let mut n: usize = 0;
    while n < a.len() && n < b.len() && a[n] == b[n]
        invariant
            n <= a@.len(),
            n <= b@.len(),
            forall|i: int| 0 <= i < n ==> a@[i] == b@[i],
        decreases a@.len() - n,
    {
        n += 1;
    }
    proof {
        lemma_match_len_is(a@, b@, n as int);
    }
    n
}

} // verus!
