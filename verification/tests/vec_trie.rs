use stencil::vec_trie::{Index, VecTrie};

#[test]
fn equal_children_are_one_node() {
    let mut trie: VecTrie<char, u32> = VecTrie::new();
    assert!(trie.is_empty());
    assert!(trie.root().is_none());
    let root = trie.insert_child(None, 'r');
    let a = trie.insert_child(Some(root), 'a');
    let b = trie.insert_child(Some(root), 'b');
    assert_eq!(trie.insert_child(Some(root), 'a'), a);
    let deep = trie.insert_child(Some(a), 'a');
    assert_eq!(
        vec![root, a, b, deep],
        (0..4).map(|position| Index { position }).collect::<Vec<_>>()
    );
    *trie.value_mut(b) += 7;
    assert_eq!(*trie.value(b), 7);
    assert_eq!(*trie.value(a), 0);
    let node = trie.root().unwrap();
    assert_eq!(*node.key(), 'r');
    let children: Vec<(char, u32)> =
        node.children().iter().map(|c| (*c.key(), *c.value())).collect();
    assert_eq!(children, vec![('a', 0), ('b', 7)]);
    assert_eq!(node.children()[0].children().len(), 1);
    assert_eq!(trie.len(), 4);
    trie.clear();
    assert_eq!(trie.len(), 0);
}
