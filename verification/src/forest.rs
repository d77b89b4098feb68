//! What a list of sibling nodes stores, and how that changes when one of
//! the siblings changes, joins or leaves.

use crate::shape::Shape;
use vstd::prelude::*;

verus! {

/// One of `nodes` stores `v` under `k`.
pub open spec fn any_holds<T>(nodes: Seq<Shape<T>>, k: Seq<u8>, v: T) -> bool {
    exists|i: int| 0 <= i < nodes.len() && (#[trigger] nodes[i]).holds(k, v)
}

/// The siblings are compressed subtrees with non-empty fragments, no two
/// of which begin with the same byte: no two share a non-empty prefix.
pub open spec fn siblings_wf<T>(nodes: Seq<Shape<T>>) -> bool {
    &&& forall|i: int|
        0 <= i < nodes.len() ==> (#[trigger] nodes[i]).wf() && nodes[i].fragment.len() > 0
    &&& forall|i: int, j: int|
        0 <= i < nodes.len() && 0 <= j < nodes.len() && i != j ==> (#[trigger] nodes[i]).fragment[0]
            != (#[trigger] nodes[j]).fragment[0]
}

/// `after` stores what `before` stores, but `v` under `k`.
pub open spec fn forest_with<T>(
    before: Seq<Shape<T>>,
    after: Seq<Shape<T>>,
    k: Seq<u8>,
    v: T,
) -> bool {
    forall|q: Seq<u8>, w: T|
        #![trigger any_holds(after, q, w)]
        #![trigger any_holds(before, q, w)]
        any_holds(after, q, w) <==> if q == k {
            w == v
        } else {
            any_holds(before, q, w)
        }
}

/// `after` stores what `before` stores, but nothing under `k`.
pub open spec fn forest_without<T>(
    before: Seq<Shape<T>>,
    after: Seq<Shape<T>>,
    k: Seq<u8>,
) -> bool {
    forall|q: Seq<u8>, w: T|
        #![trigger any_holds(after, q, w)]
        #![trigger any_holds(before, q, w)]
        any_holds(after, q, w) <==> q != k && any_holds(before, q, w)
}

/// `i` is the place of the first of `nodes` that begins with `b`, or the
/// length of `nodes` if none does.
pub open spec fn is_first_with<T>(nodes: Seq<Shape<T>>, b: u8, i: int) -> bool {
    &&& 0 <= i <= nodes.len()
    &&& i < nodes.len() ==> nodes[i].begins_with(b)
    &&& forall|j: int| 0 <= j < i ==> !(#[trigger] nodes[j]).begins_with(b)
}

/// The place of the first of `nodes` that begins with `b`, or the length of
/// `nodes` if none does.
pub open spec fn find<T>(nodes: Seq<Shape<T>>, b: u8) -> int {
    choose|i: int| is_first_with(nodes, b, i)
}

/// What inserting `v` under the non-empty key `k` makes of a list of
/// siblings: the first sibling that begins like `k` takes the pair, or a
/// new leaf joins at the end.
pub open spec fn put_among<T>(nodes: Seq<Shape<T>>, k: Seq<u8>, v: T) -> Seq<Shape<T>>
    recommends
        k.len() > 0,
{
    let i = find(nodes, k[0]);
    if 0 <= i < nodes.len() {
        nodes.update(i, nodes[i].put(k, v))
    } else {
        nodes.push(Shape::leaf(k, v))
    }
}

/// What deleting the non-empty key `k` makes of a list of siblings: the
/// first sibling that begins like `k` has it deleted, and leaves the list
/// if it is blank then.
pub open spec fn cut_among<T>(nodes: Seq<Shape<T>>, k: Seq<u8>) -> Seq<Shape<T>>
    recommends
        k.len() > 0,
{
    let i = find(nodes, k[0]);
    if 0 <= i < nodes.len() {
        let child = nodes[i].cut(k);
        if child.blank() {
            nodes.remove(i)
        } else {
            nodes.update(i, child)
        }
    } else {
        nodes
    }
}

/// There is one first place only.
pub proof fn lemma_find_is<T>(nodes: Seq<Shape<T>>, b: u8, i: int)
    requires
        is_first_with(nodes, b, i),
    ensures
        find(nodes, b) == i,
{
}

/// There is a first place, at or after `from` if none of the nodes before
/// `from` begins with `b`.
pub proof fn lemma_find_from<T>(nodes: Seq<Shape<T>>, b: u8, from: int)
    requires
        0 <= from <= nodes.len(),
        forall|j: int| 0 <= j < from ==> !(#[trigger] nodes[j]).begins_with(b),
    ensures
        is_first_with(nodes, b, find(nodes, b)),
    decreases nodes.len() - from,
{
    if from == nodes.len() || nodes[from].begins_with(b) {
        assert(is_first_with(nodes, b, from));
    } else {
        lemma_find_from(nodes, b, from + 1);
    }
}

/// `find` gives the first place.
pub proof fn lemma_find<T>(nodes: Seq<Shape<T>>, b: u8)
    ensures
        is_first_with(nodes, b, find(nodes, b)),
{
    lemma_find_from(nodes, b, 0);
}

/// Only the sibling whose fragment begins with the first byte of `k` can
/// store `k`.
pub proof fn lemma_one_branch<T>(nodes: Seq<Shape<T>>, i: int, k: Seq<u8>, w: T)
    requires
        siblings_wf(nodes),
        0 <= i < nodes.len(),
        k.len() > 0,
        nodes[i].fragment[0] == k[0],
    ensures
        any_holds(nodes, k, w) == nodes[i].holds(k, w),
{
}

/// A new leaf among the siblings stores its pair and changes nothing else.
pub proof fn lemma_leaf_pushed<T>(
    before: Seq<Shape<T>>,
    after: Seq<Shape<T>>,
    k: Seq<u8>,
    v: T,
)
    requires
        siblings_wf(before),
        k.len() > 0,
        forall|j: int| 0 <= j < before.len() ==> (#[trigger] before[j]).fragment[0] != k[0],
        after == before.push(Shape::leaf(k, v)),
    ensures
        forest_with(before, after, k, v),
        siblings_wf(after),
{
    let n = before.len() as int;
    let leaf = after[n];
    assert forall|q: Seq<u8>, w: T|
        any_holds(after, q, w) <==> if q == k {
            w == v
        } else {
            any_holds(before, q, w)
        } by {
        assert(leaf.holds(q, w) <==> q == k && w == v) by {
            if k.is_prefix_of(q) && q.len() == k.len() {
                assert(q =~= k);
            }
        }
        if q != k && any_holds(before, q, w) {
            let j = choose|j: int| 0 <= j < before.len() && (#[trigger] before[j]).holds(q, w);
            assert(after[j].holds(q, w));
        }
    }
}

/// A sibling that has taken one more pair stores it for the list too.
pub proof fn lemma_child_with<T>(
    before: Seq<Shape<T>>,
    after: Seq<Shape<T>>,
    i: int,
    k: Seq<u8>,
    v: T,
)
    requires
        siblings_wf(before),
        0 <= i < before.len(),
        after == before.update(i, after[i]),
        k.len() > 0,
        before[i].fragment[0] == k[0],
        after[i].wf(),
        after[i].fragment.len() > 0,
        after[i].fragment[0] == k[0],
        Shape::stores_with(before[i], after[i], k, v),
    ensures
        forest_with(before, after, k, v),
        siblings_wf(after),
{
    assert forall|q: Seq<u8>, w: T|
        any_holds(after, q, w) <==> if q == k {
            w == v
        } else {
            any_holds(before, q, w)
        } by {
        if q != k && any_holds(before, q, w) {
            let j = choose|j: int| 0 <= j < before.len() && (#[trigger] before[j]).holds(q, w);
            if j != i {
                assert(after[j].holds(q, w));
            }
        }
    }
}

/// A sibling that has lost a pair no longer stores it for the list.
pub proof fn lemma_child_without<T>(
    before: Seq<Shape<T>>,
    after: Seq<Shape<T>>,
    i: int,
    k: Seq<u8>,
)
    requires
        siblings_wf(before),
        0 <= i < before.len(),
        after == before.update(i, after[i]),
        k.len() > 0,
        before[i].fragment[0] == k[0],
        after[i].wf(),
        after[i].fragment.len() > 0,
        after[i].fragment[0] == k[0],
        Shape::stores_without(before[i], after[i], k),
    ensures
        forest_without(before, after, k),
        siblings_wf(after),
{
    assert forall|q: Seq<u8>, w: T|
        any_holds(after, q, w) <==> q != k && any_holds(before, q, w) by {
        if q != k && any_holds(before, q, w) {
            let j = choose|j: int| 0 <= j < before.len() && (#[trigger] before[j]).holds(q, w);
            if j != i {
                assert(after[j].holds(q, w));
            }
        }
    }
}

/// Taking away a sibling that stored `k` and nothing else leaves what the
/// others store.
pub proof fn lemma_child_removed<T>(
    before: Seq<Shape<T>>,
    after: Seq<Shape<T>>,
    i: int,
    k: Seq<u8>,
)
    requires
        siblings_wf(before),
        0 <= i < before.len(),
        after == before.remove(i),
        k.len() > 0,
        before[i].fragment[0] == k[0],
        forall|q: Seq<u8>, w: T| #[trigger] before[i].holds(q, w) ==> q == k,
    ensures
        forest_without(before, after, k),
        siblings_wf(after),
{
    assert forall|q: Seq<u8>, w: T|
        any_holds(after, q, w) <==> q != k && any_holds(before, q, w) by {
        if q != k && any_holds(before, q, w) {
            let j = choose|j: int| 0 <= j < before.len() && (#[trigger] before[j]).holds(q, w);
            let j1 = if j < i {
                j
            } else {
                j - 1
            };
            assert(after[j1].holds(q, w));
        }
    }
}

} // verus!
