//! What holds of every well-formed trie.
//!
//! `Trie::insert` turns a trie of shape `s` into one of shape
//! `s.put_below(key, value)`, `Trie::delete` into one of shape
//! `s.cut_below(key)`, and `Trie::get` answers from the map of the shape:
//! the value that the map has for the key, or `None` where it has none. The
//! theorems are stated of these shapes.

use crate::shape::Shape;
use crate::{lemma_match_len_is, match_len, Trie};
use vstd::prelude::*;

verus! {

/// Round trip: after an insertion the key is found, with the value that
/// was inserted.
pub proof fn theorem_insert_then_get<T>(trie: Trie<T>, key: Seq<u8>, value: T)
    requires
        trie.wf(),
    ensures
        trie.shape().put_below(key, value).as_map().dom().contains(key),
        trie.shape().put_below(key, value).as_map()[key] == value,
{
    let s = trie.shape();
    s.lemma_put_below(key, value);
    Shape::lemma_stores_with_view(s, s.put_below(key, value), key, value);
}

/// Overwrite: of two insertions under one key only the second is seen. No
/// node is made for the second: the trie is, node for node, the one that
/// the second insertion alone would have left, and no other value is
/// stored under the key.
pub proof fn theorem_insert_twice<T>(trie: Trie<T>, key: Seq<u8>, first: T, second: T)
    requires
        trie.wf(),
    ensures
        trie.shape().put_below(key, first).put_below(key, second).as_map()[key] == second,
        trie.shape().put_below(key, first).put_below(key, second) == trie.shape().put_below(
            key,
            second,
        ),
        forall|w: T|
            trie.shape().put_below(key, first).put_below(key, second).holds(key, w) ==> w
                == second,
{
    let s = trie.shape();
    let once = s.put_below(key, first);
    let twice = once.put_below(key, second);
    s.lemma_put_below(key, first);
    once.lemma_put_below(key, second);
    Shape::lemma_stores_with_view(once, twice, key, second);
    s.lemma_put_below_twice(key, first, second);
}

/// Non-interference: an insertion changes what is found under no other
/// key.
pub proof fn theorem_insert_keeps_others<T>(
    trie: Trie<T>,
    key: Seq<u8>,
    value: T,
    other: Seq<u8>,
)
    requires
        trie.wf(),
        other != key,
    ensures
        trie.shape().put_below(key, value).as_map().dom().contains(other)
            == trie@.dom().contains(other),
        trie@.dom().contains(other) ==> trie.shape().put_below(key, value).as_map()[other]
            == trie@[other],
{
    let s = trie.shape();
    s.lemma_put_below(key, value);
    Shape::lemma_stores_with_view(s, s.put_below(key, value), key, value);
}

/// Below a node whose children are compressed, every node heads a
/// compressed subtree and has a non-empty fragment.
pub proof fn theorem_nodes_wf<T>(top: Shape<T>, n: Shape<T>)
    requires
        top.branches_wf(),
        top.within(n),
    ensures
        n.branches_wf(),
        n != top ==> n.wf() && n.fragment.len() > 0,
    decreases top,
{
    if n != top {
        let i = choose|i: int|
            0 <= i < top.children.len() && (#[trigger] top.children[i]).within(n);
        theorem_nodes_wf(top.children[i], n);
    }
}

/// Compression: in a well-formed trie no two children of one node, at
/// whatever depth, share a non-empty prefix, and none has an empty
/// fragment. The top-level nodes count as the children of the root. A trie
/// from `new` is well-formed, and `insert` and `delete` keep it so.
pub proof fn theorem_siblings_share_no_prefix<T>(trie: Trie<T>, n: Shape<T>, i: int, j: int)
    requires
        trie.wf(),
        trie.shape().within(n),
        0 <= i < n.children.len(),
        0 <= j < n.children.len(),
        i != j,
    ensures
        n.children[i].fragment.len() > 0,
        n.children[j].fragment.len() > 0,
        match_len(n.children[i].fragment, n.children[j].fragment) == 0,
{
    theorem_nodes_wf(trie.shape(), n);
    let a = n.children[i];
    let b = n.children[j];
    lemma_match_len_is(a.fragment, b.fragment, 0);
}

/// The shape of a trie that came from `new` and then took the insertions
/// of `pairs`, in their order.
pub open spec fn after_insertions<T>(pairs: Seq<(Seq<u8>, T)>) -> Shape<T>
    decreases pairs.len(),
{
    if pairs.len() == 0 {
        Shape::empty()
    } else {
        after_insertions(pairs.drop_last()).put_below(pairs.last().0, pairs.last().1)
    }
}

/// Compression after any sequence of insertions: no two children of one
/// node, at whatever depth, share a non-empty prefix, and none has an empty
/// fragment.
pub proof fn theorem_compressed_after_insertions<T>(
    pairs: Seq<(Seq<u8>, T)>,
    n: Shape<T>,
    i: int,
    j: int,
)
    requires
        after_insertions(pairs).within(n),
        0 <= i < n.children.len(),
        0 <= j < n.children.len(),
        i != j,
    ensures
        after_insertions(pairs).branches_wf(),
        n.children[i].fragment.len() > 0,
        n.children[j].fragment.len() > 0,
        match_len(n.children[i].fragment, n.children[j].fragment) == 0,
{
    lemma_insertions_wf(pairs);
    theorem_nodes_wf(after_insertions(pairs), n);
    lemma_match_len_is(n.children[i].fragment, n.children[j].fragment, 0);
}

/// Insertions keep the children of the root compressed.
proof fn lemma_insertions_wf<T>(pairs: Seq<(Seq<u8>, T)>)
    ensures
        after_insertions(pairs).branches_wf(),
    decreases pairs.len(),
{
    if pairs.len() > 0 {
        lemma_insertions_wf(pairs.drop_last());
        after_insertions(pairs.drop_last()).lemma_put_below(pairs.last().0, pairs.last().1);
    }
}

/// Path uniqueness: a well-formed trie stores at most one value under a
/// key.
pub proof fn theorem_one_value_per_key<T>(trie: Trie<T>, key: Seq<u8>, v: T, w: T)
    requires
        trie.wf(),
        trie.shape().holds(key, v),
        trie.shape().holds(key, w),
    ensures
        v == w,
{
    trie.shape().lemma_holds_unique(key, v, w);
}

/// Deletion round trip: after a deletion the key is no longer found, and
/// what is found under any other key is unchanged.
pub proof fn theorem_delete_then_get<T>(trie: Trie<T>, key: Seq<u8>, other: Seq<u8>)
    requires
        trie.wf(),
        other != key,
    ensures
        !trie.shape().cut_below(key).as_map().dom().contains(key),
        trie.shape().cut_below(key).as_map().dom().contains(other) == trie@.dom().contains(
            other,
        ),
        trie@.dom().contains(other) ==> trie.shape().cut_below(key).as_map()[other]
            == trie@[other],
{
    let s = trie.shape();
    s.lemma_cut_below(key);
    Shape::lemma_stores_without_view(s, s.cut_below(key), key);
}

/// Deleting what was just inserted leaves the key unfound; if the key was
/// new, the trie is again what it was before the insertion, node for node.
pub proof fn theorem_insert_then_delete<T>(trie: Trie<T>, key: Seq<u8>, value: T)
    requires
        trie.wf(),
    ensures
        !trie.shape().put_below(key, value).cut_below(key).as_map().dom().contains(key),
        !trie@.dom().contains(key) ==> trie.shape().put_below(key, value).cut_below(key)
            == trie.shape(),
{
    let s = trie.shape();
    let grown = s.put_below(key, value);
    assert(s.fragment + key =~= key);
    s.lemma_put_below(key, value);
    grown.lemma_cut_below(key);
    Shape::lemma_stores_with_view(s, grown, key, value);
    Shape::lemma_stores_without_view(grown, grown.cut_below(key), key);
    if !trie@.dom().contains(key) {
        s.lemma_view_holds();
        assert forall|w: T| !s.holds(s.fragment + key, w) by {
            if s.holds(key, w) {
                assert(trie@.contains_pair(key, w));
            }
        }
        s.lemma_put_cut_below(key, value);
    }
}

/// Deleting a key that the trie does not store changes nothing: every node
/// stays as it is.
pub proof fn theorem_delete_missing<T>(trie: Trie<T>, key: Seq<u8>)
    requires
        trie.wf(),
        !trie@.dom().contains(key),
    ensures
        trie.shape().cut_below(key) == trie.shape(),
{
    let s = trie.shape();
    s.lemma_cut_below(key);
}

/// Idempotent delete: deleting a key a second time changes nothing: every
/// node stays as it is.
pub proof fn theorem_delete_twice<T>(trie: Trie<T>, key: Seq<u8>)
    requires
        trie.wf(),
    ensures
        trie.shape().cut_below(key).cut_below(key) == trie.shape().cut_below(key),
{
    let s = trie.shape();
    let once = s.cut_below(key);
    s.lemma_cut_below(key);
    once.lemma_cut_below(key);
}

} // verus!
