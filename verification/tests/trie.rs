use compressed_trie::node::TrieNode;
use compressed_trie::{get_match_len, Trie};

fn leaf<T>(key: &[u8], value: T) -> TrieNode<T> {
    TrieNode { key: key.to_vec(), value: Some(value), children: Vec::new() }
}

#[test]
fn lib_single_insert() {
    let data = "Data";
    let mut trie = Trie::new();
    trie.insert(b"data".to_vec(), data);

    let trie2 = Trie {
        value: None,
        children: vec![TrieNode {
            key: b"data".to_vec(),
            value: Some(data),
            children: Vec::new(),
        }],
    };

    assert_eq!(trie, trie2);
    assert_eq!(trie.get(b"data"), Some(&data));
}

#[test]
fn lib_multiple_insert() {
    let mut trie = Trie::new();
    trie.insert(b"/".to_vec(), "data");
    trie.insert(b"/2".to_vec(), "data2");

    let trie2 = Trie {
        value: None,
        children: vec![TrieNode {
            key: b"/".to_vec(),
            value: Some("data"),
            children: vec![Box::new(TrieNode {
                key: b"2".to_vec(),
                value: Some("data2"),
                children: Vec::new(),
            })],
        }],
    };

    assert_eq!(trie, trie2);
    assert_eq!(trie.get(b"/"), Some(&"data"));
    assert_eq!(trie.get(b"/2"), Some(&"data2"));
}

#[test]
fn lib_split_node() {
    let mut trie = Trie::new();
    trie.insert(b"/1".to_vec(), "Data");
    trie.insert(b"/2".to_vec(), "Data2");

    let trie2 = Trie {
        value: None,
        children: vec![TrieNode {
            key: b"/".to_vec(),
            value: None,
            children: vec![
                Box::new(TrieNode {
                    key: b"1".to_vec(),
                    value: Some("Data"),
                    children: Vec::new(),
                }),
                Box::new(TrieNode {
                    key: b"2".to_vec(),
                    value: Some("Data2"),
                    children: Vec::new(),
                }),
            ],
        }],
    };

    assert_eq!(trie, trie2);
    assert_eq!(trie.get(b"/"), None);
    assert_eq!(trie.get(b"/1"), Some(&"Data"));
    assert_eq!(trie.get(b"/2"), Some(&"Data2"));
}

#[test]
fn match_len_counts_common_bytes() {
    assert_eq!(get_match_len(b"", b""), 0);
    assert_eq!(get_match_len(b"", b"abc"), 0);
    assert_eq!(get_match_len(b"abc", b""), 0);
    assert_eq!(get_match_len(b"abc", b"xbc"), 0);
    assert_eq!(get_match_len(b"abc", b"abd"), 2);
    assert_eq!(get_match_len(b"ab", b"abd"), 2);
    assert_eq!(get_match_len(b"abd", b"ab"), 2);
    assert_eq!(get_match_len(b"abc", b"abc"), 3);
}

#[test]
fn match_len_is_bytewise() {
    // "é" and "è" share their first byte in UTF-8 and differ in the second.
    assert_eq!(get_match_len("é".as_bytes(), "è".as_bytes()), 1);
    assert_eq!(get_match_len(b"A", b"a"), 0);
    assert_eq!(get_match_len(&[0xff, 0x00, 0x01], &[0xff, 0x00, 0x02]), 2);
}

#[test]
fn new_trie_is_empty() {
    let trie: Trie<u32> = Trie::new();
    assert_eq!(trie, Trie { value: None, children: Vec::new() });
    assert_eq!(trie.get(b""), None);
    assert_eq!(trie.get(b"a"), None);
}

#[test]
fn insert_then_get() {
    let keys: [&[u8]; 7] =
        [b"romane", b"romanus", b"romulus", b"rubens", b"ruber", b"rubicon", b"r"];
    let mut trie = Trie::new();
    for (n, k) in keys.iter().enumerate() {
        trie.insert(k.to_vec(), n);
        assert_eq!(trie.get(k), Some(&n));
    }
    for (n, k) in keys.iter().enumerate() {
        assert_eq!(trie.get(k), Some(&n));
    }
    assert_eq!(trie.get(b"rom"), None);
    assert_eq!(trie.get(b"roman"), None);
    assert_eq!(trie.get(b"romanes"), None);
    assert_eq!(trie.get(b"x"), None);
}

#[test]
fn overwrite_keeps_shape() {
    let mut trie = Trie::new();
    trie.insert(b"/1".to_vec(), 1);
    trie.insert(b"/2".to_vec(), 2);
    let mut again = Trie::new();
    again.insert(b"/1".to_vec(), 1);
    again.insert(b"/2".to_vec(), 2);

    again.insert(b"/2".to_vec(), 20);
    assert_eq!(again.get(b"/2"), Some(&20));
    assert_eq!(again.get(b"/1"), Some(&1));
    again.insert(b"/2".to_vec(), 2);
    assert_eq!(again, trie);

    // a key that ends at a node without a value takes the node over
    again.insert(b"/".to_vec(), 0);
    assert_eq!(again.children.len(), 1);
    assert_eq!(again.children[0].key, b"/".to_vec());
    assert_eq!(again.children[0].value, Some(0));
    assert_eq!(again.children[0].children.len(), 2);
}

#[test]
fn insert_leaves_other_keys_alone() {
    let mut trie = Trie::new();
    trie.insert(b"alpha".to_vec(), 1);
    trie.insert(b"beta".to_vec(), 2);
    trie.insert(b"alps".to_vec(), 3);
    assert_eq!(trie.get(b"alpha"), Some(&1));
    assert_eq!(trie.get(b"beta"), Some(&2));
    trie.insert(b"al".to_vec(), 4);
    assert_eq!(trie.get(b"alpha"), Some(&1));
    assert_eq!(trie.get(b"alps"), Some(&3));
    assert_eq!(trie.get(b"beta"), Some(&2));
    assert_eq!(trie.get(b"al"), Some(&4));
}

#[test]
fn key_that_is_a_prefix_splits_without_leaf() {
    let mut trie = Trie::new();
    trie.insert(b"abc".to_vec(), 1);
    trie.insert(b"ab".to_vec(), 2);
    let expected = Trie {
        value: None,
        children: vec![TrieNode {
            key: b"ab".to_vec(),
            value: Some(2),
            children: vec![Box::new(leaf(b"c", 1))],
        }],
    };
    assert_eq!(trie, expected);
}

#[test]
fn unrelated_keys_become_siblings() {
    let mut trie = Trie::new();
    trie.insert(b"a".to_vec(), 1);
    trie.insert(b"b".to_vec(), 2);
    assert_eq!(trie, Trie { value: None, children: vec![leaf(b"a", 1), leaf(b"b", 2)] });
}

fn no_shared_prefix<T>(nodes: &[&TrieNode<T>]) -> bool {
    for (i, a) in nodes.iter().enumerate() {
        if a.key.is_empty() {
            return false;
        }
        for b in &nodes[i + 1..] {
            if get_match_len(&a.key, &b.key) != 0 {
                return false;
            }
        }
    }
    nodes.iter().all(|n| {
        let below: Vec<&TrieNode<T>> = n.children.iter().map(|c| &**c).collect();
        (n.value.is_some() || below.len() >= 2) && no_shared_prefix(&below)
    })
}

#[test]
fn siblings_never_share_a_prefix() {
    let keys: [&[u8]; 10] = [
        b"test", b"toaster", b"toasting", b"slow", b"slowly", b"te", b"t", b"team", b"", b"slower",
    ];
    let mut trie = Trie::new();
    for (n, k) in keys.iter().enumerate() {
        trie.insert(k.to_vec(), n);
        let roots: Vec<&TrieNode<usize>> = trie.children.iter().collect();
        assert!(no_shared_prefix(&roots));
    }
    for k in keys.iter() {
        trie.delete(k);
        let roots: Vec<&TrieNode<usize>> = trie.children.iter().collect();
        assert!(no_shared_prefix(&roots));
    }
    assert_eq!(trie, Trie::new());
}

#[test]
fn empty_key_lives_at_the_root() {
    let mut trie = Trie::new();
    trie.insert(Vec::new(), 7);
    assert_eq!(trie, Trie { value: Some(7), children: Vec::new() });
    assert_eq!(trie.get(b""), Some(&7));
    trie.insert(b"a".to_vec(), 8);
    trie.insert(Vec::new(), 9);
    assert_eq!(trie, Trie { value: Some(9), children: vec![leaf(b"a", 8)] });
    assert_eq!(trie.get(b""), Some(&9));
    assert_eq!(trie.get(b"a"), Some(&8));
    trie.delete(b"");
    assert_eq!(trie.get(b""), None);
    assert_eq!(trie.get(b"a"), Some(&8));
}

#[test]
fn delete_then_get() {
    let mut trie = Trie::new();
    trie.insert(b"/1".to_vec(), "Data");
    trie.insert(b"/2".to_vec(), "Data2");
    trie.delete(b"/1");
    assert_eq!(trie.get(b"/1"), None);
    assert_eq!(trie.get(b"/2"), Some(&"Data2"));
    // the node "/" had one child left and no value: the two are merged
    assert_eq!(trie, Trie { value: None, children: vec![leaf(b"/2", "Data2")] });
    trie.delete(b"/2");
    assert_eq!(trie.get(b"/2"), None);
    assert_eq!(trie, Trie::new());
}

#[test]
fn delete_of_missing_key_changes_nothing() {
    let mut trie = Trie::new();
    trie.insert(b"/1".to_vec(), 1);
    trie.insert(b"/2".to_vec(), 2);
    trie.insert(b"/23".to_vec(), 3);
    let mut same = Trie::new();
    same.insert(b"/1".to_vec(), 1);
    same.insert(b"/2".to_vec(), 2);
    same.insert(b"/23".to_vec(), 3);

    for k in [&b"/"[..], b"", b"/3", b"/234", b"x", b"/12"] {
        trie.delete(k);
        assert_eq!(trie, same);
    }
}

#[test]
fn delete_twice_is_delete_once() {
    let mut once = Trie::new();
    let mut twice = Trie::new();
    for t in [&mut once, &mut twice] {
        t.insert(b"car".to_vec(), 1);
        t.insert(b"cart".to_vec(), 2);
        t.insert(b"cat".to_vec(), 3);
    }
    once.delete(b"cart");
    twice.delete(b"cart");
    twice.delete(b"cart");
    assert_eq!(once, twice);
    assert_eq!(twice.get(b"cart"), None);
    assert_eq!(twice.get(b"car"), Some(&1));
    assert_eq!(twice.get(b"cat"), Some(&3));
}

#[test]
fn delete_keeps_a_node_that_branches() {
    let mut trie = Trie::new();
    trie.insert(b"a".to_vec(), 0);
    trie.insert(b"ab".to_vec(), 1);
    trie.insert(b"ac".to_vec(), 2);
    trie.delete(b"a");
    let expected = Trie {
        value: None,
        children: vec![TrieNode {
            key: b"a".to_vec(),
            value: None,
            children: vec![Box::new(leaf(b"b", 1)), Box::new(leaf(b"c", 2))],
        }],
    };
    assert_eq!(trie, expected);
}

#[test]
fn delete_merges_up_the_path() {
    let mut trie = Trie::new();
    trie.insert(b"abc".to_vec(), 1);
    trie.insert(b"abd".to_vec(), 2);
    trie.insert(b"abde".to_vec(), 3);
    trie.delete(b"abd");
    let expected = Trie {
        value: None,
        children: vec![TrieNode {
            key: b"ab".to_vec(),
            value: None,
            children: vec![Box::new(leaf(b"c", 1)), Box::new(leaf(b"de", 3))],
        }],
    };
    assert_eq!(trie, expected);
    trie.delete(b"abc");
    assert_eq!(trie, Trie { value: None, children: vec![leaf(b"abde", 3)] });
}

#[test]
fn delete_reverses_insert() {
    let mut trie = Trie::new();
    trie.insert(b"/1".to_vec(), 1);
    let mut grown = Trie::new();
    grown.insert(b"/1".to_vec(), 1);
    grown.insert(b"/2".to_vec(), 2);
    grown.delete(b"/2");
    assert_eq!(grown, trie);
}

#[test]
fn clone_is_equal_and_independent() {
    let mut trie = Trie::new();
    trie.insert(b"/1".to_vec(), String::from("Data"));
    trie.insert(b"/2".to_vec(), String::from("Data2"));
    trie.insert(Vec::new(), String::from("root"));
    let copy = trie.clone();
    assert_eq!(copy, trie);
    trie.delete(b"/1");
    assert_eq!(copy.get(b"/1"), Some(&String::from("Data")));
    assert_eq!(trie.get(b"/1"), None);
    assert_ne!(copy, trie);
}
