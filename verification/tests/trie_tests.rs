use radix_trie::trie::{lcp, Node, Trie};

#[test]
fn insert_test() {
    let mut trie = Trie::<String>::new();

    trie.insert("cat".to_string(), "1".to_string());
    trie.insert("bull".to_string(), "2".to_string());
    trie.insert("car".to_string(), "14".to_string());

    assert_eq!(trie.get("cat"), Some(&"1".to_string()));
    assert_eq!(trie.get("car"), Some(&"14".to_string()));
    assert_eq!(trie.get("bull"), Some(&"2".to_string()));

    let mut trie = Trie::<i32>::new();

    trie.insert("cat".to_string(), 1);
    trie.insert("bull".to_string(), 2);
    trie.insert("car".to_string(), 14);

    assert_eq!(trie.get("cat"), Some(&1));
    assert_eq!(trie.get("car"), Some(&14));
    assert_eq!(trie.get("bull"), Some(&2));
}

#[test]
fn round_trip_distinct_keys() {
    let mut trie = Trie::<i32>::new();
    let pairs = [
        ("cat", 1),
        ("car", 2),
        ("carpool", 3),
        ("dog", 4),
        ("", 5),
        ("do", 6),
    ];
    for (k, v) in &pairs {
        trie.insert(k.to_string(), *v);
    }
    for (k, v) in &pairs {
        assert_eq!(trie.get(k), Some(v));
    }
}

#[test]
fn overwrite_returns_latest() {
    let mut trie = Trie::<String>::new();
    trie.insert("key".to_string(), "old".to_string());
    trie.insert("key".to_string(), "new".to_string());
    assert_eq!(trie.get("key"), Some(&"new".to_string()));
}

#[test]
fn prefix_independence_both_orders() {
    let mut forward = Trie::<i32>::new();
    forward.insert("car".to_string(), 1);
    forward.insert("carpool".to_string(), 2);
    let mut backward = Trie::<i32>::new();
    backward.insert("carpool".to_string(), 2);
    backward.insert("car".to_string(), 1);
    for trie in [&forward, &backward] {
        assert_eq!(trie.get("car"), Some(&1));
        assert_eq!(trie.get("carpool"), Some(&2));
        assert_eq!(trie.get("carp"), None);
        assert_eq!(trie.get("ca"), None);
    }

    let mut siblings = Trie::<i32>::new();
    siblings.insert("car".to_string(), 1);
    siblings.insert("cat".to_string(), 3);
    assert_eq!(siblings.get("car"), Some(&1));
    assert_eq!(siblings.get("cat"), Some(&3));
}

#[test]
fn miss_behavior() {
    let mut trie = Trie::<i32>::new();
    assert_eq!(trie.get("anything"), None);
    trie.insert("cat".to_string(), 1);
    assert_eq!(trie.get("ca"), None);
    assert_eq!(trie.get("c"), None);
    assert_eq!(trie.get("cats"), None);
    assert_eq!(trie.get("dog"), None);
    assert_eq!(trie.get(""), None);
}

#[test]
fn empty_key() {
    let mut trie = Trie::<i32>::new();
    trie.insert(String::new(), 7);
    assert_eq!(trie.get(""), Some(&7));
    trie.insert("cat".to_string(), 1);
    assert_eq!(trie.get(""), Some(&7));
    assert_eq!(trie.get("cat"), Some(&1));
}

#[test]
fn scenario_three_keys() {
    let mut trie = Trie::<String>::new();
    trie.insert("cat".to_string(), "1".to_string());
    trie.insert("bull".to_string(), "2".to_string());
    trie.insert("car".to_string(), "14".to_string());
    assert_eq!(trie.get("cat"), Some(&"1".to_string()));
    assert_eq!(trie.get("car"), Some(&"14".to_string()));
    assert_eq!(trie.get("bull"), Some(&"2".to_string()));
    assert_eq!(trie.get("ca"), None);
    let combined = format!("{}{}", "ca", "r");
    assert_eq!(trie.get(&combined), trie.get("car"));
    assert_eq!(trie.get(&combined), Some(&"14".to_string()));
}

#[test]
fn scenario_split_then_split() {
    let mut trie = Trie::<char>::new();
    trie.insert("car".to_string(), 'A');
    trie.insert("cart".to_string(), 'B');
    trie.insert("care".to_string(), 'C');
    assert_eq!(trie.get("car"), Some(&'A'));
    assert_eq!(trie.get("cart"), Some(&'B'));
    assert_eq!(trie.get("care"), Some(&'C'));
    assert_eq!(trie.get("ca"), None);
}

#[test]
fn key_strict_prefix_of_edge() {
    let mut trie = Trie::<i32>::new();
    trie.insert("carpool".to_string(), 1);
    trie.insert("car".to_string(), 2);
    assert_eq!(trie.get("carpool"), Some(&1));
    assert_eq!(trie.get("car"), Some(&2));
    assert_eq!(trie.get("carp"), None);
}

fn node_invariant_holds<V>(node: &Node<V>, is_root: bool) -> bool {
    for pair in &node.children {
        if pair.0.is_empty() {
            return false;
        }
    }
    for i in 0..node.children.len() {
        for j in 0..node.children.len() {
            if i != j && node.children[i].0.chars().next() == node.children[j].0.chars().next() {
                return false;
            }
        }
    }
    if !is_root && node.value.is_none() && node.children.is_empty() {
        return false;
    }
    node.children
        .iter()
        .all(|pair| node_invariant_holds(&pair.1, false))
}

#[test]
fn structural_invariant_after_insertions() {
    let mut trie = Trie::<i32>::new();
    let keys = [
        "cat", "car", "carpool", "ca", "", "dog", "do", "done", "cart", "care", "bull", "b",
    ];
    for (i, k) in keys.iter().enumerate() {
        trie.insert(k.to_string(), i as i32);
        assert!(node_invariant_holds(&trie.root, true));
    }
    for (i, k) in keys.iter().enumerate() {
        assert_eq!(trie.get(k), Some(&(i as i32)));
    }
}

#[test]
fn lcp_examples() {
    assert_eq!(lcp("car", "cat"), "ca".to_string());
    assert_eq!(lcp("", "cat"), "".to_string());
    assert_eq!(lcp("car", ""), "".to_string());
    assert_eq!(lcp("abc", "abc"), "abc".to_string());
    assert_eq!(lcp("abc", "abd"), "ab".to_string());
    assert_eq!(lcp("abc", "xyz"), "".to_string());
    assert_eq!(lcp("ab", "abcd"), "ab".to_string());
}

#[test]
fn unicode_keys() {
    let mut trie = Trie::<i32>::new();
    trie.insert("n\u{e9}e".to_string(), 1);
    trie.insert("n\u{e9}on".to_string(), 2);
    assert_eq!(trie.get("n\u{e9}e"), Some(&1));
    assert_eq!(trie.get("n\u{e9}on"), Some(&2));
    assert_eq!(trie.get("n\u{e9}"), None);
    assert_eq!(lcp("n\u{e9}e", "n\u{e9}on"), "n\u{e9}".to_string());
}
