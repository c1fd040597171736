use course_index::course::Course;
use course_index::tree::AVLTree;

fn plain(id: &str) -> Course {
    Course::new(id.to_string(), format!("course {}", id), Vec::new())
}

fn numbered(n: u32) -> String {
    format!("C{:05}", n)
}

fn ids(tree: &AVLTree) -> Vec<String> {
    tree.in_order_traversal()
        .iter()
        .map(|c| c.course_id().to_string())
        .collect()
}

fn min_nodes(h: i32) -> u64 {
    if h < 0 {
        0
    } else if h == 0 {
        1
    } else {
        1 + min_nodes(h - 1) + min_nodes(h - 2)
    }
}

fn check(tree: &AVLTree, expected: &[String]) {
    let mut sorted = expected.to_vec();
    sorted.sort();
    assert_eq!(ids(tree), sorted);
    assert_eq!(tree.len(), expected.len());
    assert!(min_nodes(tree.tree_height()) <= expected.len() as u64);
    for id in expected {
        assert_eq!(
            tree.search_node(id).unwrap().course().course_id(),
            id.as_str()
        );
    }
}

#[test]
fn rising_insertions_give_a_full_tree() {
    let mut tree = AVLTree::new();
    let mut all = Vec::new();
    for n in 1..=7 {
        tree.insert(plain(&numbered(n)));
        all.push(numbered(n));
        check(&tree, &all);
    }
    assert_eq!(tree.tree_height(), 2);
    for n in 8..=15 {
        tree.insert(plain(&numbered(n)));
        all.push(numbered(n));
    }
    check(&tree, &all);
    assert_eq!(tree.tree_height(), 3);
}

#[test]
fn falling_insertions_give_a_full_tree() {
    let mut tree = AVLTree::new();
    let mut all = Vec::new();
    for n in (1..=15).rev() {
        tree.insert(plain(&numbered(n)));
        all.push(numbered(n));
        check(&tree, &all);
    }
    assert_eq!(tree.tree_height(), 3);
}

#[test]
fn a_left_right_chain_takes_a_double_rotation() {
    let mut tree = AVLTree::new();
    for id in ["C", "A", "B"] {
        tree.insert(plain(id));
    }
    assert_eq!(ids(&tree), vec!["A", "B", "C"]);
    assert_eq!(tree.tree_height(), 1);
}

#[test]
fn a_right_left_chain_takes_a_double_rotation() {
    let mut tree = AVLTree::new();
    for id in ["A", "C", "B"] {
        tree.insert(plain(id));
    }
    assert_eq!(ids(&tree), vec!["A", "B", "C"]);
    assert_eq!(tree.tree_height(), 1);
}

#[test]
fn removing_a_leaf_keeps_the_rest() {
    let mut tree = AVLTree::new();
    for id in ["D", "B", "F", "A", "C", "E", "G"] {
        tree.insert(plain(id));
    }
    tree.remove("A");
    assert_eq!(ids(&tree), vec!["B", "C", "D", "E", "F", "G"]);
    assert_eq!(tree.tree_height(), 2);
    assert_eq!(tree.len(), 6);
}

#[test]
fn removing_a_node_with_one_child_keeps_the_child() {
    let mut tree = AVLTree::new();
    for id in ["D", "B", "F", "A", "C", "E", "G"] {
        tree.insert(plain(id));
    }
    tree.remove("A");
    tree.remove("B");
    assert_eq!(ids(&tree), vec!["C", "D", "E", "F", "G"]);
    assert!(tree.search_node("C").is_some());
    assert_eq!(tree.tree_height(), 2);
}

#[test]
fn removing_a_node_with_two_children_keeps_both_subtrees() {
    let mut tree = AVLTree::new();
    for id in ["D", "B", "F", "A", "C", "E", "G"] {
        tree.insert(plain(id));
    }
    tree.remove("D");
    assert_eq!(ids(&tree), vec!["A", "B", "C", "E", "F", "G"]);
    assert_eq!(tree.tree_height(), 2);
    tree.remove("B");
    assert_eq!(ids(&tree), vec!["A", "C", "E", "F", "G"]);
    tree.remove("F");
    assert_eq!(ids(&tree), vec!["A", "C", "E", "G"]);
    assert_eq!(tree.len(), 4);
    assert_eq!(tree.tree_height(), 2);
}

#[test]
fn a_removal_can_make_the_tree_one_level_lower() {
    let mut tree = AVLTree::new();
    for id in ["B", "A", "C", "D"] {
        tree.insert(plain(id));
    }
    assert_eq!(tree.tree_height(), 2);
    tree.remove("A");
    assert_eq!(ids(&tree), vec!["B", "C", "D"]);
    assert_eq!(tree.tree_height(), 1);
}

#[test]
fn the_height_stays_within_the_bound_under_many_insertions() {
    let mut tree = AVLTree::new();
    let mut seen = std::collections::BTreeSet::new();
    let mut state: u64 = 0x2545_f491_4f6c_dd1d;
    for _ in 0..3000 {
        state = state
            .wrapping_mul(6364136223846793005)
            .wrapping_add(1442695040888963407);
        let id = format!("K{:07}", (state >> 33) % 1_000_000);
        tree.insert(plain(&id));
        seen.insert(id);
        let n = seen.len();
        assert_eq!(tree.len(), n);
        let bound = 1.44 * ((n + 2) as f64).log2() - 0.328;
        assert!((tree.tree_height() as f64) <= bound);
        assert!(min_nodes(tree.tree_height()) <= n as u64);
    }
    let expected: Vec<String> = seen.iter().cloned().collect();
    assert_eq!(ids(&tree), expected);
}

#[test]
fn insertions_and_removals_in_turn_keep_the_tree_in_order() {
    let mut tree = AVLTree::new();
    let mut seen = std::collections::BTreeSet::new();
    let mut state: u64 = 12345;
    for step in 0..4000 {
        state = state
            .wrapping_mul(6364136223846793005)
            .wrapping_add(1442695040888963407);
        let id = format!("K{:03}", (state >> 33) % 500);
        if step % 3 == 2 {
            tree.remove(&id);
            seen.remove(&id);
            assert!(tree.search_node(&id).is_none());
        } else {
            tree.insert(plain(&id));
            seen.insert(id.clone());
            assert!(tree.search_node(&id).is_some());
        }
        assert_eq!(tree.len(), seen.len());
        assert!(min_nodes(tree.tree_height()) <= seen.len() as u64);
    }
    let expected: Vec<String> = seen.iter().cloned().collect();
    assert_eq!(ids(&tree), expected);
    for id in &expected {
        tree.remove(id);
    }
    assert_eq!(tree.len(), 0);
    assert_eq!(tree.tree_height(), -1);
}
