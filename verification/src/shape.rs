//! The mathematical model of a subtree: what it stores, when it is
//! compressed, and what insertion and deletion make of it.

use crate::forest::{any_holds, cut_among, find, put_among, siblings_wf};
use crate::match_len;
use vstd::prelude::*;

verus! {

/// A subtree as a value: the fragment of its topmost node, the value of the
/// key that ends there, if any, and the subtrees below, in their order.
pub struct Shape<T> {
    /// The bytes that the topmost node adds to the path from above.
    pub fragment: Seq<u8>,
    /// The value of the key that ends at the topmost node, if any.
    pub value: Option<T>,
    /// The subtrees below the topmost node.
    pub children: Seq<Shape<T>>,
}

impl<T> Shape<T> {
    /// A single node that stores `v` under `k`.
    pub open spec fn leaf(k: Seq<u8>, v: T) -> Self {
        Shape { fragment: k, value: Some(v), children: Seq::empty() }
    }

    /// The blank node.
    pub open spec fn empty() -> Self {
        Shape { fragment: Seq::empty(), value: None, children: Seq::empty() }
    }

    /// A node that stands for the empty tree: no fragment, no value, no
    /// children.
    pub open spec fn blank(self) -> bool {
        &&& self.fragment.len() == 0
        &&& self.value is None
        &&& self.children.len() == 0
    }

    /// The fragment is not empty and begins with `b`.
    pub open spec fn begins_with(self, b: u8) -> bool {
        self.fragment.len() > 0 && self.fragment[0] == b
    }

    /// The subtree stores `v` under `k`: its fragment begins `k`, and
    /// either `k` ends with the fragment and `v` is the topmost node's own
    /// value, or one of the children stores `v` under the rest of `k`.
    pub open spec fn holds(self, k: Seq<u8>, v: T) -> bool
        decreases self,
    {
        &&& self.fragment.is_prefix_of(k)
        &&& if k.len() == self.fragment.len() {
            self.value == Some(v)
        } else {
            exists|i: int|
                0 <= i < self.children.len() && (#[trigger] self.children[i]).holds(
                    k.skip(self.fragment.len() as int),
                    v,
                )
        }
    }

    /// One of the children stores `v` under `k`.
    pub open spec fn holds_below(self, k: Seq<u8>, v: T) -> bool {
        any_holds(self.children, k, v)
    }

    /// The keys stored in the subtree, each with its value.
    pub open spec fn as_map(self) -> Map<Seq<u8>, T> {
        Map::new(
            |k: Seq<u8>| exists|v: T| self.holds(k, v),
            |k: Seq<u8>| choose|v: T| self.holds(k, v),
        )
    }

    /// The children are compressed subtrees with non-empty fragments, no two
    /// of which begin with the same byte.
    pub open spec fn branches_wf(self) -> bool {
        siblings_wf(self.children)
    }

    /// The subtree is compressed. A node without a value never has exactly
    /// one child, and has no child at all only when it is blank. Below the
    /// topmost node every fragment is non-empty, and no two siblings begin
    /// with the same byte: no two share a non-empty prefix.
    pub open spec fn wf(self) -> bool
        decreases self,
    {
        &&& self.value is None ==> self.children.len() != 1
        &&& self.value is None && self.children.len() == 0 ==> self.fragment.len() == 0
        &&& forall|i: int|
            0 <= i < self.children.len() ==> (#[trigger] self.children[i]).wf()
                && self.children[i].fragment.len() > 0
        &&& forall|i: int, j: int|
            0 <= i < self.children.len() && 0 <= j < self.children.len() && i != j ==> (
            #[trigger] self.children[i]).fragment[0] != (#[trigger] self.children[j]).fragment[0]
    }

    /// `n` is this subtree or one of the subtrees below it.
    pub open spec fn within(self, n: Self) -> bool
        decreases self,
    {
        n == self || exists|i: int|
            0 <= i < self.children.len() && (#[trigger] self.children[i]).within(n)
    }

    /// `after` stores what `before` stores, but `v` under `k`.
    pub open spec fn stores_with(before: Self, after: Self, k: Seq<u8>, v: T) -> bool {
        forall|q: Seq<u8>, w: T|
            #![trigger after.holds(q, w)]
            #![trigger before.holds(q, w)]
            after.holds(q, w) <==> if q == k {
                w == v
            } else {
                before.holds(q, w)
            }
    }

    /// `after` stores what `before` stores, but nothing under `k`.
    pub open spec fn stores_without(before: Self, after: Self, k: Seq<u8>) -> bool {
        forall|q: Seq<u8>, w: T|
            #![trigger after.holds(q, w)]
            #![trigger before.holds(q, w)]
            after.holds(q, w) <==> q != k && before.holds(q, w)
    }

    /// The fragment that the topmost node has once `k` is inserted: `k`
    /// itself for a blank node, else what the old fragment and `k` have in
    /// common.
    pub open spec fn fragment_with(self, k: Seq<u8>) -> Seq<u8> {
        if self.blank() {
            k
        } else {
            self.fragment.take(match_len(self.fragment, k))
        }
    }

    /// The node split in two at `at`: a node with the first `at` bytes of
    /// the fragment and no value, above a single child with the rest of the
    /// fragment, the value and the children.
    pub open spec fn split(self, at: int) -> Self {
        Shape {
            fragment: self.fragment.take(at),
            value: None,
            children: seq![
                Shape {
                    fragment: self.fragment.skip(at),
                    value: self.value,
                    children: self.children,
                },
            ],
        }
    }

    /// What inserting `v` under `k` makes of the subtree.
    ///
    /// A blank node becomes a leaf for `k`. A node whose fragment `k` leaves
    /// half-way is split there, and the rest of `k`, if there is any, becomes
    /// a second child; if there is none the upper half takes the value. A
    /// node whose fragment is all of `k` takes the value. Else the rest of
    /// `k` goes to the first child that begins like it, or becomes a new last
    /// child.
    pub open spec fn put(self, k: Seq<u8>, v: T) -> Self
        decreases self,
    {
        let m = match_len(self.fragment, k);
        let rest = k.skip(m);
        if self.blank() {
            Self::leaf(k, v)
        } else if m < self.fragment.len() {
            let upper = self.split(m);
            if rest.len() == 0 {
                Shape { value: Some(v), ..upper }
            } else {
                Shape { children: upper.children.push(Self::leaf(rest, v)), ..upper }
            }
        } else if rest.len() == 0 {
            Shape { value: Some(v), ..self }
        } else {
            let i = find(self.children, rest[0]);
            if 0 <= i < self.children.len() {
                Shape { children: self.children.update(i, self.children[i].put(rest, v)), ..self }
            } else {
                Shape { children: self.children.push(Self::leaf(rest, v)), ..self }
            }
        }
    }

    /// What inserting `v` makes of a node that `rest` is counted from: the
    /// node takes the value if `rest` is empty, else `rest` goes to the
    /// children.
    pub open spec fn put_below(self, rest: Seq<u8>, v: T) -> Self {
        if rest.len() == 0 {
            Shape { value: Some(v), ..self }
        } else {
            Shape { children: put_among(self.children, rest, v), ..self }
        }
    }

    /// The node with compression restored after it has lost its value or a
    /// child: without a value, a node with no child becomes blank, and a
    /// node with one child is merged with it.
    pub open spec fn squeezed(self) -> Self {
        if self.value is Some {
            self
        } else if self.children.len() == 0 {
            Shape { fragment: Seq::empty(), ..self }
        } else if self.children.len() == 1 {
            Shape {
                fragment: self.fragment + self.children[0].fragment,
                value: self.children[0].value,
                children: self.children[0].children,
            }
        } else {
            self
        }
    }

    /// What deleting `k` makes of the subtree.
    ///
    /// Nothing changes where the fragment does not begin `k`, or where `k`
    /// ends at a node without a value. Else the node where `k` ends loses
    /// its value, or the first child that begins like the rest of `k` has
    /// the rest deleted and leaves if it is blank then; after that the node
    /// is squeezed.
    pub open spec fn cut(self, k: Seq<u8>) -> Self
        decreases self,
    {
        let m = match_len(self.fragment, k);
        let rest = k.skip(m);
        if m < self.fragment.len() {
            self
        } else if rest.len() == 0 {
            if self.value is None {
                self
            } else {
                Shape { value: None, ..self }.squeezed()
            }
        } else {
            let i = find(self.children, rest[0]);
            if 0 <= i < self.children.len() {
                let child = self.children[i].cut(rest);
                if child.blank() {
                    Shape { children: self.children.remove(i), ..self }.squeezed()
                } else {
                    Shape { children: self.children.update(i, child), ..self }.squeezed()
                }
            } else {
                self.squeezed()
            }
        }
    }

    /// What deleting makes of a node that `rest` is counted from, before it
    /// is squeezed: the node loses its value if `rest` is empty, else `rest`
    /// is deleted from the children.
    pub open spec fn cut_below(self, rest: Seq<u8>) -> Self {
        if rest.len() == 0 {
            Shape { value: None, ..self }
        } else {
            Shape { children: cut_among(self.children, rest), ..self }
        }
    }
}

} // verus!
