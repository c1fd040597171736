use course_index::course::Course;
use course_index::tree::AVLTree;

fn course(id: &str, name: &str, prereqs: &[&str]) -> Course {
    Course::new(
        id.to_string(),
        name.to_string(),
        prereqs.iter().map(|p| p.to_string()).collect(),
    )
}

fn ids(tree: &AVLTree) -> Vec<String> {
    tree.in_order_traversal()
        .iter()
        .map(|c| c.course_id().to_string())
        .collect()
}

#[test]
fn three_courses_in_a_chain_are_balanced_by_one_rotation() {
    let mut tree = AVLTree::new();
    tree.insert(course("CS101", "Intro", &[]));
    tree.insert(course("CS201", "Data Structures", &["CS101"]));
    tree.insert(course("CS301", "Algorithms", &["CS201"]));
    assert_eq!(ids(&tree), vec!["CS101", "CS201", "CS301"]);
    assert!(tree.tree_height() <= 1);
    assert_eq!(tree.tree_height(), 1);
    assert_eq!(tree.len(), 3);

    tree.remove("CS201");
    assert_eq!(ids(&tree), vec!["CS101", "CS301"]);
    assert!(tree.search_node("CS201").is_none());
    let found = tree.search_node("cs101");
    assert!(found.is_some());
    assert_eq!(found.unwrap().course().course_id(), "CS101");
    assert_eq!(tree.len(), 2);
}

#[test]
fn the_record_keeps_its_name_and_prerequisites() {
    let mut tree = AVLTree::new();
    tree.insert(course("CS201", "Data Structures", &["CS101", "MATH1"]));
    let node = tree.search_node("CS201").unwrap();
    assert_eq!(node.course().course_id(), "CS201");
    assert_eq!(node.course().course_name(), "Data Structures");
    assert_eq!(
        node.course().prereqs(),
        &vec!["CS101".to_string(), "MATH1".to_string()]
    );
}

#[test]
fn a_new_tree_is_empty() {
    let tree = AVLTree::new();
    assert_eq!(tree.len(), 0);
    assert_eq!(tree.tree_height(), -1);
    assert!(tree.in_order_traversal().is_empty());
    assert!(tree.search_node("CS101").is_none());
}

#[test]
fn a_single_course_makes_a_tree_of_height_zero() {
    let mut tree = AVLTree::new();
    tree.insert(course("CS101", "Intro", &[]));
    assert_eq!(tree.tree_height(), 0);
    assert_eq!(tree.len(), 1);
}

#[test]
fn a_second_course_under_the_same_identifier_is_dropped() {
    let mut tree = AVLTree::new();
    tree.insert(course("CS101", "Intro", &[]));
    tree.insert(course("CS101", "Another name", &["CS001"]));
    assert_eq!(tree.len(), 1);
    let node = tree.search_node("CS101").unwrap();
    assert_eq!(node.course().course_name(), "Intro");
    assert!(node.course().prereqs().is_empty());
}

#[test]
fn identifiers_that_differ_in_case_only_are_the_same_key() {
    let mut tree = AVLTree::new();
    tree.insert(course("cs101", "Lower", &[]));
    tree.insert(course("CS101", "Upper", &[]));
    assert_eq!(tree.len(), 1);
    assert_eq!(ids(&tree), vec!["cs101"]);
    assert_eq!(
        tree.search_node("Cs101").unwrap().course().course_name(),
        "Lower"
    );
    tree.remove("CS101");
    assert_eq!(tree.len(), 0);
    assert!(tree.search_node("cs101").is_none());
}

#[test]
fn the_order_of_the_walk_ignores_case() {
    let mut tree = AVLTree::new();
    tree.insert(course("b", "", &[]));
    tree.insert(course("C", "", &[]));
    tree.insert(course("A", "", &[]));
    tree.insert(course("d", "", &[]));
    assert_eq!(ids(&tree), vec!["A", "b", "C", "d"]);
}

#[test]
fn removing_an_absent_identifier_changes_nothing() {
    let mut tree = AVLTree::new();
    tree.remove("CS101");
    assert_eq!(tree.len(), 0);
    tree.insert(course("CS101", "Intro", &[]));
    tree.insert(course("CS201", "Data Structures", &[]));
    tree.remove("CS999");
    assert_eq!(tree.len(), 2);
    assert_eq!(ids(&tree), vec!["CS101", "CS201"]);
    assert_eq!(tree.tree_height(), 1);
}

#[test]
fn a_removed_course_that_is_inserted_again_is_found() {
    let mut tree = AVLTree::new();
    for id in ["M", "D", "T", "B", "F"] {
        tree.insert(course(id, "first", &[]));
    }
    tree.remove("D");
    assert!(tree.search_node("D").is_none());
    tree.insert(course("D", "second", &[]));
    assert_eq!(
        tree.search_node("d").unwrap().course().course_name(),
        "second"
    );
    assert_eq!(ids(&tree), vec!["B", "D", "F", "M", "T"]);
}
