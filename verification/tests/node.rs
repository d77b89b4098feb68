use compressed_trie::node::TrieNode;

#[test]
fn node_single_insert() {
    let data = "Data";
    let mut trie = TrieNode::new();
    trie.insert(b"data".to_vec(), data);

    let trie2 = TrieNode {
        key: b"data".to_vec(),
        value: Some(data),
        children: Vec::new(),
    };

    assert_eq!(trie, trie2);
    assert_eq!(trie.get(b"data"), Some(&data));
}

#[test]
fn node_multiple_insert() {
    let mut trie = TrieNode::new();
    trie.insert(b"/".to_vec(), "data");
    trie.insert(b"/2".to_vec(), "data2");

    let trie2 = TrieNode {
        key: b"/".to_vec(),
        value: Some("data"),
        children: vec![Box::new(TrieNode {
            key: b"2".to_vec(),
            value: Some("data2"),
            children: Vec::new(),
        })],
    };

    assert_eq!(trie, trie2);
    assert_eq!(trie.get(b"/"), Some(&"data"));
    assert_eq!(trie.get(b"/2"), Some(&"data2"));
}

#[test]
fn node_split_node() {
    let mut trie = TrieNode::new();
    trie.insert(b"/1".to_vec(), "Data");
    trie.insert(b"/2".to_vec(), "Data2");

    let trie2 = TrieNode {
        key: b"/".to_vec(),
        value: None,
        children: vec![
            Box::new(TrieNode {
                key: b"1".to_vec(),
                value: Some("Data"),
                children: Vec::new(),
            }),
            Box::new(TrieNode {
                key: b"2".to_vec(),
                value: Some("Data2"),
                children: Vec::new(),
            }),
        ],
    };

    assert_eq!(trie, trie2);
    assert_eq!(trie.get(b"/"), None);
    assert_eq!(trie.get(b"/1"), Some(&"Data"));
    assert_eq!(trie.get(b"/2"), Some(&"Data2"));
}

#[test]
fn new_node_is_blank() {
    let node: TrieNode<u8> = TrieNode::new();
    assert!(node.is_blank());
    assert_eq!(node, TrieNode { key: Vec::new(), value: None, children: Vec::new() });
    assert_eq!(node.get(b""), None);
    assert_eq!(node.get(b"a"), None);
}

#[test]
fn prefix_match_wants_a_common_first_byte() {
    let mut node = TrieNode::new();
    assert!(!node.prefix_match(b"abc"));
    node.insert(b"abc".to_vec(), 1);
    assert!(node.prefix_match(b"abc"));
    assert!(node.prefix_match(b"a"));
    assert!(node.prefix_match(b"axy"));
    assert!(!node.prefix_match(b"bbc"));
    assert!(!node.prefix_match(b""));
}

#[test]
fn node_with_nothing_in_common_splits_at_the_start() {
    let mut node = TrieNode::new();
    node.insert(b"abc".to_vec(), 1);
    node.insert(b"xyz".to_vec(), 2);
    let expected = TrieNode {
        key: Vec::new(),
        value: None,
        children: vec![
            Box::new(TrieNode { key: b"abc".to_vec(), value: Some(1), children: Vec::new() }),
            Box::new(TrieNode { key: b"xyz".to_vec(), value: Some(2), children: Vec::new() }),
        ],
    };
    assert_eq!(node, expected);
    assert_eq!(node.get(b"abc"), Some(&1));
    assert_eq!(node.get(b"xyz"), Some(&2));
    assert_eq!(node.get(b""), None);
    // a node with an empty fragment and children is no blank node
    node.insert(b"q".to_vec(), 3);
    assert_eq!(node.key, Vec::<u8>::new());
    assert_eq!(node.children.len(), 3);
    assert_eq!(node.get(b"abc"), Some(&1));
    assert_eq!(node.get(b"q"), Some(&3));
}

#[test]
fn node_takes_the_empty_key() {
    let mut node = TrieNode::new();
    node.insert(Vec::new(), 1);
    assert_eq!(node.get(b""), Some(&1));
    node.insert(b"a".to_vec(), 2);
    assert_eq!(node.get(b""), Some(&1));
    assert_eq!(node.get(b"a"), Some(&2));
    node.insert(Vec::new(), 3);
    assert_eq!(node.get(b""), Some(&3));
    assert_eq!(node.children.len(), 1);
}

#[test]
fn node_overwrite_replaces_value() {
    let mut node = TrieNode::new();
    node.insert(b"key".to_vec(), 1);
    node.insert(b"key".to_vec(), 2);
    assert_eq!(node, TrieNode { key: b"key".to_vec(), value: Some(2), children: Vec::new() });
    assert_eq!(node.get(b"key"), Some(&2));
}

#[test]
fn node_delete_last_key_leaves_blank() {
    let mut node = TrieNode::new();
    node.insert(b"key".to_vec(), 1);
    node.delete(b"key");
    assert!(node.is_blank());
    assert_eq!(node, TrieNode::new());
    node.delete(b"key");
    assert_eq!(node, TrieNode::new());
}

#[test]
fn node_delete_merges_single_child() {
    let mut node = TrieNode::new();
    node.insert(b"/1".to_vec(), "Data");
    node.insert(b"/2".to_vec(), "Data2");
    node.delete(b"/2");
    assert_eq!(node, TrieNode { key: b"/1".to_vec(), value: Some("Data"), children: Vec::new() });
    assert_eq!(node.get(b"/1"), Some(&"Data"));
    assert_eq!(node.get(b"/2"), None);
}

#[test]
fn node_delete_of_inner_value_merges_with_child() {
    let mut node = TrieNode::new();
    node.insert(b"ab".to_vec(), 1);
    node.insert(b"abcd".to_vec(), 2);
    node.delete(b"ab");
    assert_eq!(node, TrieNode { key: b"abcd".to_vec(), value: Some(2), children: Vec::new() });
}

#[test]
fn node_delete_of_structural_node_is_no_op() {
    let mut node = TrieNode::new();
    node.insert(b"/1".to_vec(), 1);
    node.insert(b"/2".to_vec(), 2);
    let mut same = TrieNode::new();
    same.insert(b"/1".to_vec(), 1);
    same.insert(b"/2".to_vec(), 2);
    node.delete(b"/");
    assert_eq!(node, same);
    node.delete(b"/3");
    assert_eq!(node, same);
    node.delete(b"");
    assert_eq!(node, same);
}

#[test]
fn node_clone_is_equal_and_independent() {
    let mut node = TrieNode::new();
    node.insert(b"/1".to_vec(), 1);
    node.insert(b"/2".to_vec(), 2);
    let copy = node.clone();
    assert_eq!(copy, node);
    node.insert(b"/3".to_vec(), 3);
    assert_eq!(copy.get(b"/3"), None);
    assert_eq!(copy.children.len(), 2);
    assert_eq!(node.children.len(), 3);
}
