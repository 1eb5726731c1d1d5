use spellcast::trie::TrieNode;

fn lookup<'a>(root: &'a TrieNode, w: &str) -> Option<&'a TrieNode> {
    let mut node = root;
    for c in w.chars() {
        node = node.child(c)?;
    }
    Some(node)
}

#[test]
fn empty_node_has_nothing() {
    let n = TrieNode::new();
    assert!(!n.is_complete());
    assert!(n.is_leaf());
    assert!(n.child('a').is_none());
    assert!(n.children().is_empty());
}

#[test]
fn build_marks_words_and_prefixes() {
    let root = TrieNode::build(&["cat", "car", "care"]);
    assert!(lookup(&root, "cat").unwrap().is_complete());
    assert!(lookup(&root, "car").unwrap().is_complete());
    assert!(lookup(&root, "care").unwrap().is_complete());
    assert!(!lookup(&root, "ca").unwrap().is_complete());
    assert!(lookup(&root, "cab").is_none());
    assert!(lookup(&root, "dog").is_none());
    assert!(lookup(&root, "cat").unwrap().is_leaf());
    assert!(!lookup(&root, "car").unwrap().is_leaf());
    assert!(!root.is_complete());
}

#[test]
fn build_ignores_repeated_words() {
    let once = TrieNode::build(&["tea"]);
    let twice = TrieNode::build(&["tea", "tea"]);
    assert!(lookup(&once, "tea").unwrap().is_complete());
    assert!(lookup(&twice, "tea").unwrap().is_complete());
    assert!(lookup(&twice, "tea").unwrap().is_leaf());
    assert_eq!(twice.children().len(), 1);
}

#[test]
fn children_in_alphabetical_order() {
    let root = TrieNode::build(&["zoo", "ant", "map"]);
    let letters: Vec<char> = root.children().iter().map(|(c, _)| *c).collect();
    assert_eq!(letters, vec!['a', 'm', 'z']);
    let (_, a) = root.children()[0];
    assert!(a.child('n').is_some());
}

#[test]
fn child_outside_alphabet_is_absent() {
    let root = TrieNode::build(&["a"]);
    assert!(root.child('A').is_none());
    assert!(root.child('1').is_none());
    assert!(root.child('a').unwrap().is_complete());
}

#[test]
fn tree_string_lists_letters_by_depth() {
    let root = TrieNode::build(&["ab", "ac", "b"]);
    assert_eq!(root.tree_string(), "a\n b*\n c*\nb*\n");
    assert_eq!(TrieNode::new().tree_string(), "");
}

#[test]
fn tree_string_preorder_listing() {
    let root = TrieNode::build(&["car", "cat", "a"]);
    assert_eq!(root.tree_string(), "a*\nc\n a\n  r*\n  t*\n");
}

#[test]
fn build_has_no_dead_branches() {
    let root = TrieNode::build(&["cat", "car", "care"]);
    assert!(root.child('a').is_none());
    let ca = root.child('c').unwrap().child('a').unwrap();
    assert!(!ca.is_complete());
    assert!(ca.child('t').unwrap().is_leaf());
    assert!(!ca.child('r').unwrap().is_leaf());
    assert!(ca.child('r').unwrap().child('e').unwrap().is_complete());
    let reordered = TrieNode::build(&["care", "cat", "car", "cat"]);
    assert_eq!(root.tree_string(), reordered.tree_string());
}
