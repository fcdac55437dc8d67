use lexfront::prefix::PrefixTree;

#[test]
fn find_exact_keys_only() {
    let mut tree: PrefixTree<u32> = PrefixTree::new();
    tree.insert("abc", 1);
    tree.insert("ab", 2);
    tree.insert("x", 3);
    assert_eq!(tree.find("abc"), Some(&1));
    assert_eq!(tree.find("ab"), Some(&2));
    assert_eq!(tree.find("x"), Some(&3));
    assert_eq!(tree.find("a"), None);
    assert_eq!(tree.find("abcd"), None);
    assert_eq!(tree.find(""), None);
}

#[test]
fn strict_prefix_without_value() {
    let mut tree: PrefixTree<u32> = PrefixTree::new();
    tree.insert("while", 7);
    assert_eq!(tree.find("whil"), None);
    assert_eq!(tree.find("w"), None);
    assert_eq!(tree.find("while"), Some(&7));
}

#[test]
fn later_insert_overwrites() {
    let mut tree: PrefixTree<u32> = PrefixTree::new();
    tree.insert("k", 1);
    tree.insert("k", 2);
    assert_eq!(tree.find("k"), Some(&2));
}

#[test]
fn empty_key() {
    let mut tree: PrefixTree<u32> = PrefixTree::new();
    assert_eq!(tree.find(""), None);
    tree.insert("", 5);
    assert_eq!(tree.find(""), Some(&5));
}

#[test]
fn from_entries_last_wins() {
    let tree = PrefixTree::from_entries(vec![("a", 1), ("bc", 2), ("a", 3)]);
    assert_eq!(tree.find("a"), Some(&3));
    assert_eq!(tree.find("bc"), Some(&2));
    assert_eq!(tree.find("b"), None);
}

#[test]
fn all_chars_of_keys() {
    let mut tree: PrefixTree<u32> = PrefixTree::new();
    assert!(tree.get_all_chars().is_empty());
    tree.insert("ab", 1);
    tree.insert("ba", 2);
    tree.insert("c", 3);
    let mut chars = tree.get_all_chars();
    chars.sort();
    assert_eq!(chars, vec!['a', 'b', 'c']);
}
