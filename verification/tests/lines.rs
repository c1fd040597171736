use course_index::course::Course;
use course_index::loader::{contains_id, declared_ids, is_blank_line, load_courses, parse_course};
use course_index::menu::{read_choice, MenuChoice};
use course_index::report::{describe, describe_course};
use course_index::text::{chars_of, split_fields, trim};
use course_index::tree::AVLTree;

fn strings(items: &[&str]) -> Vec<String> {
    items.iter().map(|s| s.to_string()).collect()
}

#[test]
fn trimming_takes_white_space_from_both_ends_only() {
    assert_eq!(trim("  CS 101 \t\n"), "CS 101");
    assert_eq!(trim("CS101"), "CS101");
    assert_eq!(trim(" \t "), "");
    assert_eq!(trim(""), "");
    assert_eq!(trim("\u{2003}x\u{a0}"), "x");
}

#[test]
fn the_characters_of_a_string_come_in_order() {
    assert_eq!(chars_of("aé,"), vec!['a', 'é', ',']);
    assert_eq!(chars_of(""), Vec::<char>::new());
}

#[test]
fn a_line_with_n_commas_has_n_plus_one_fields() {
    assert_eq!(split_fields("CS201,Data Structures,CS101"), strings(&["CS201", "Data Structures", "CS101"]));
    assert_eq!(split_fields(""), strings(&[""]));
    assert_eq!(split_fields("abc"), strings(&["abc"]));
    assert_eq!(split_fields(","), strings(&["", ""]));
    assert_eq!(split_fields("a,,b,"), strings(&["a", "", "b", ""]));
    assert_eq!(split_fields(" a , é"), strings(&[" a ", " é"]));
}

#[test]
fn a_line_of_white_space_is_blank() {
    assert!(is_blank_line(""));
    assert!(is_blank_line("  \t"));
    assert!(!is_blank_line(" , "));
    assert!(!is_blank_line("CS101,Intro"));
}

#[test]
fn membership_goes_by_the_exact_spelling() {
    let ids = strings(&["CS101", "CS201"]);
    assert!(contains_id(&ids, &"CS201".to_string()));
    assert!(!contains_id(&ids, &"cs201".to_string()));
    assert!(!contains_id(&ids, &" CS201".to_string()));
    assert!(!contains_id(&Vec::new(), &"CS201".to_string()));
}

#[test]
fn each_line_declares_its_first_field_trimmed() {
    let lines = strings(&[" CS101 ,Intro", "", "  ", "CS201,Data Structures,CS101", ",nameless", "CS301"]);
    assert_eq!(declared_ids(&lines), strings(&["CS101", "CS201", "CS301"]));
}

#[test]
fn a_line_of_two_fields_is_a_course_without_prerequisites() {
    let ids = strings(&["CS101"]);
    let course = parse_course("CS101,Intro", &ids).unwrap();
    assert_eq!(course.course_id(), "CS101");
    assert_eq!(course.course_name(), "Intro");
    assert!(course.prereqs().is_empty());
}

#[test]
fn unknown_prerequisites_are_dropped() {
    let ids = strings(&["CS101", "CS201", "MATH1"]);
    let course = parse_course("CS301,Algorithms,CS201,CS999,,MATH1, CS101", &ids).unwrap();
    assert_eq!(course.course_id(), "CS301");
    assert_eq!(course.course_name(), "Algorithms");
    assert_eq!(course.prereqs(), &strings(&["CS201", "MATH1"]));
}

#[test]
fn a_line_with_fewer_than_two_fields_is_no_course() {
    let ids = strings(&["CS101"]);
    assert!(parse_course("CS101", &ids).is_none());
    assert!(parse_course("", &ids).is_none());
    assert!(parse_course("   ", &ids).is_none());
}

#[test]
fn the_fields_of_a_course_are_kept_as_written() {
    let ids = Vec::new();
    let course = parse_course(" CS101 , Intro ", &ids).unwrap();
    assert_eq!(course.course_id(), " CS101 ");
    assert_eq!(course.course_name(), " Intro ");
}

#[test]
fn loading_inserts_the_courses_of_every_line() {
    let lines = strings(&[
        "CS301,Algorithms,CS201,CS999",
        "",
        "CS101,Intro",
        "CS201,Data Structures,CS101",
        "broken",
        "CS101,Intro again",
    ]);
    let mut tree = AVLTree::new();
    load_courses(&mut tree, &lines);
    assert_eq!(tree.len(), 3);
    let walk: Vec<&str> = tree.in_order_traversal().iter().map(|c| c.course_id()).collect();
    assert_eq!(walk, vec!["CS101", "CS201", "CS301"]);
    assert_eq!(tree.search_node("cs301").unwrap().course().prereqs(), &strings(&["CS201"]));
    assert_eq!(tree.search_node("cs101").unwrap().course().course_name(), "Intro");
}

#[test]
fn loading_into_a_tree_that_holds_courses_keeps_them() {
    let mut tree = AVLTree::new();
    tree.insert(Course::new("CS101".to_string(), "Old".to_string(), Vec::new()));
    load_courses(&mut tree, &strings(&["CS101,New", "CS201,Data Structures"]));
    assert_eq!(tree.len(), 2);
    assert_eq!(tree.search_node("CS101").unwrap().course().course_name(), "Old");
}

#[test]
fn a_course_is_shown_with_its_prerequisites() {
    let course = Course::new(
        "CS301".to_string(),
        "Algorithms".to_string(),
        strings(&["CS201", "MATH1", "CS101"]),
    );
    assert_eq!(
        describe_course(&course),
        "\nID: CS301\nName: Algorithms\nPrerequisites: CS201, MATH1, CS101\n"
    );
    assert_eq!(describe(Some(&course)), describe_course(&course));
}

#[test]
fn a_course_without_prerequisites_is_shown_in_two_lines() {
    let course = Course::new("CS101".to_string(), "Intro".to_string(), Vec::new());
    assert_eq!(describe_course(&course), "\nID: CS101\nName: Intro\n");
    let one = Course::new("CS201".to_string(), "DS".to_string(), strings(&["CS101"]));
    assert_eq!(describe_course(&one), "\nID: CS201\nName: DS\nPrerequisites: CS101\n");
}

#[test]
fn a_failed_search_is_shown_as_an_error() {
    assert_eq!(describe(None), "\nERROR: Course not found.\n");
}

#[test]
fn the_menu_knows_four_choices() {
    assert_eq!(read_choice("1\n"), MenuChoice::Load);
    assert_eq!(read_choice(" 2 "), MenuChoice::List);
    assert_eq!(read_choice("3"), MenuChoice::Find);
    assert_eq!(read_choice("9\r\n"), MenuChoice::Exit);
    assert_eq!(read_choice("4"), MenuChoice::Invalid);
    assert_eq!(read_choice(""), MenuChoice::Invalid);
    assert_eq!(read_choice("11"), MenuChoice::Invalid);
}
