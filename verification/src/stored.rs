//! What the model stores: one value per key at most, and how the pairs
//! stored change with each step of an insertion or a deletion.

use crate::forest::{forest_with, forest_without};
use crate::shape::Shape;
use vstd::prelude::*;

verus! {

impl<T> Shape<T> {
    /// A node whose children are compressed stores at most one value under
    /// a key: the key follows one path only.
    pub proof fn lemma_holds_unique(self, k: Seq<u8>, v: T, w: T)
        requires
            self.branches_wf(),
            self.holds(k, v),
            self.holds(k, w),
        ensures
            v == w,
        decreases self,
    {
        if k.len() != self.fragment.len() {
            let rest = k.skip(self.fragment.len() as int);
            let i = choose|i: int|
                0 <= i < self.children.len() && (#[trigger] self.children[i]).holds(rest, v);
            let j = choose|j: int|
                0 <= j < self.children.len() && (#[trigger] self.children[j]).holds(rest, w);
            assert(self.children[i].fragment[0] == rest[0]);
            assert(self.children[j].fragment[0] == rest[0]);
            assert(i == j);
            self.children[i].lemma_holds_unique(rest, v, w);
        }
    }

    /// The map of a node whose children are compressed holds exactly the
    /// pairs that the node stores.
    pub proof fn lemma_view_holds(self)
        requires
            self.branches_wf(),
        ensures
            forall|k: Seq<u8>, v: T|
                #![trigger self.holds(k, v)]
                #![trigger self.as_map().contains_pair(k, v)]
                self.holds(k, v) <==> self.as_map().contains_pair(k, v),
    {
        assert forall|k: Seq<u8>, v: T| self.holds(k, v) <==> self.as_map().contains_pair(k, v) by {
            if self.holds(k, v) {
                let w = choose|w: T| self.holds(k, w);
                self.lemma_holds_unique(k, v, w);
            }
        }
    }

    /// Storing one more pair is `Map::insert` on the maps.
    pub proof fn lemma_stores_with_view(before: Self, after: Self, k: Seq<u8>, v: T)
        requires
            before.branches_wf(),
            after.branches_wf(),
            Self::stores_with(before, after, k, v),
        ensures
            after.as_map() == before.as_map().insert(k, v),
    {
        let grown = before.as_map().insert(k, v);
        let now = after.as_map();
        before.lemma_view_holds();
        after.lemma_view_holds();
        assert forall|q: Seq<u8>| #[trigger] now.dom().contains(q) implies grown.contains_pair(
            q,
            now[q],
        ) by {
            assert(now.contains_pair(q, now[q]));
        }
        assert forall|q: Seq<u8>| #[trigger] grown.dom().contains(q) implies now.dom().contains(
            q,
        ) by {
            assert(after.holds(q, grown[q]));
        }
        assert(now =~= grown);
    }

    /// Storing one pair less is `Map::remove` on the maps.
    pub proof fn lemma_stores_without_view(before: Self, after: Self, k: Seq<u8>)
        requires
            before.branches_wf(),
            after.branches_wf(),
            Self::stores_without(before, after, k),
        ensures
            after.as_map() == before.as_map().remove(k),
    {
        let less = before.as_map().remove(k);
        let now = after.as_map();
        before.lemma_view_holds();
        after.lemma_view_holds();
        assert forall|q: Seq<u8>| #[trigger] now.dom().contains(q) implies less.contains_pair(
            q,
            now[q],
        ) by {
            assert(now.contains_pair(q, now[q]));
        }
        assert forall|q: Seq<u8>| #[trigger] less.dom().contains(q) implies now.dom().contains(
            q,
        ) by {
            assert(after.holds(q, less[q]));
        }
        assert(now =~= less);
    }

    /// A node with no value and a single child stores what the two store
    /// when they are merged into one node.
    pub proof fn lemma_split_holds(whole: Self, upper: Self, q: Seq<u8>, w: T)
        requires
            upper.value is None,
            upper.children.len() == 1,
            upper.children[0].fragment.len() > 0,
            whole.fragment == upper.fragment + upper.children[0].fragment,
            whole.value == upper.children[0].value,
            whole.children == upper.children[0].children,
        ensures
            whole.holds(q, w) == upper.holds(q, w),
    {
        let lower = upper.children[0];
        let a = upper.fragment;
        let b = lower.fragment;
        if a.is_prefix_of(q) {
            let r = q.skip(a.len() as int);
            if b.len() <= r.len() {
                assert(r.skip(b.len() as int) =~= q.skip((a.len() + b.len()) as int));
            }
            if b.is_prefix_of(r) {
                assert((a + b).is_prefix_of(q));
            }
            if (a + b).is_prefix_of(q) {
                let ab = a + b;
                assert forall|i: int| 0 <= i < b.len() implies b[i] == r[i] by {
                    assert(ab[a.len() + i] == q.subrange(0, ab.len() as int)[a.len() + i]);
                }
                assert(b.is_prefix_of(r));
            }
            assert(lower.holds(r, w) == whole.holds(q, w));
            if upper.holds(q, w) {
                let i = choose|i: int|
                    0 <= i < upper.children.len() && (#[trigger] upper.children[i]).holds(r, w);
                assert(i == 0);
            }
            if lower.holds(r, w) {
                assert(upper.children[0].holds(r, w));
            }
        } else if (a + b).is_prefix_of(q) {
            assert(a.is_prefix_of(q));
        }
    }

    /// Setting the node's value stores it under the node's fragment.
    pub proof fn lemma_value_set(before: Self, after: Self, v: T)
        requires
            after.fragment == before.fragment,
            after.children == before.children,
            after.value == Some(v),
        ensures
            Self::stores_with(before, after, before.fragment, v),
    {
        assert forall|q: Seq<u8>, w: T|
            after.holds(q, w) <==> if q == before.fragment {
                w == v
            } else {
                before.holds(q, w)
            } by {
            if before.fragment.is_prefix_of(q) && q.len() == before.fragment.len() {
                assert(q =~= before.fragment);
            }
        }
    }

    /// Clearing the node's value leaves nothing under the node's fragment.
    pub proof fn lemma_value_cleared(before: Self, after: Self)
        requires
            after.fragment == before.fragment,
            after.children == before.children,
            after.value is None,
        ensures
            Self::stores_without(before, after, before.fragment),
    {
        assert forall|q: Seq<u8>, w: T|
            after.holds(q, w) <==> q != before.fragment && before.holds(q, w) by {
            if before.fragment.is_prefix_of(q) && q.len() == before.fragment.len() {
                assert(q =~= before.fragment);
            }
        }
    }

    /// What is put below a node is stored by the node under the longer
    /// key.
    pub proof fn lemma_below_with(before: Self, after: Self, rest: Seq<u8>, v: T)
        requires
            after.fragment == before.fragment,
            after.value == before.value,
            rest.len() > 0,
            forest_with(before.children, after.children, rest, v),
        ensures
            Self::stores_with(before, after, before.fragment + rest, v),
    {
        let f = before.fragment;
        assert forall|q: Seq<u8>, w: T|
            after.holds(q, w) <==> if q == f + rest {
                w == v
            } else {
                before.holds(q, w)
            } by {
            if f.is_prefix_of(q) {
                let r = q.skip(f.len() as int);
                assert(q =~= f + r);
                if q.len() != f.len() {
                    assert(after.holds(q, w) == after.holds_below(r, w));
                    assert(before.holds(q, w) == before.holds_below(r, w));
                    assert(q == f + rest <==> r == rest) by {
                        if q == f + rest {
                            assert(r =~= rest);
                        }
                    }
                }
            } else if q == f + rest {
                assert(f.is_prefix_of(q));
            }
        }
    }

    /// What is taken from below a node is no longer stored by the node
    /// under the longer key.
    pub proof fn lemma_below_without(before: Self, after: Self, rest: Seq<u8>)
        requires
            after.fragment == before.fragment,
            after.value == before.value,
            rest.len() > 0,
            forest_without(before.children, after.children, rest),
        ensures
            Self::stores_without(before, after, before.fragment + rest),
    {
        let f = before.fragment;
        assert forall|q: Seq<u8>, w: T|
            after.holds(q, w) <==> q != f + rest && before.holds(q, w) by {
            if f.is_prefix_of(q) {
                let r = q.skip(f.len() as int);
                assert(q =~= f + r);
                if q.len() != f.len() {
                    assert(after.holds(q, w) == after.holds_below(r, w));
                    assert(before.holds(q, w) == before.holds_below(r, w));
                    assert(q == f + rest <==> r == rest) by {
                        if q == f + rest {
                            assert(r =~= rest);
                        }
                    }
                }
            }
        }
    }
}

} // verus!
