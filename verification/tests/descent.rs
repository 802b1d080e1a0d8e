use wtp::Tree;
use wtp::navigate;
use wtp::Outcome;

fn lines(xs: &[&str]) -> Vec<String> {
    xs.iter().map(|x| x.to_string()).collect()
}

#[test]
fn picking_fruit_then_banana() {
    let t = Tree::from_lines(&lines(&[
        "Fruit",
        "    Apple",
        "    Banana",
        "Vegetable",
        "    Carrot",
    ]));
    assert_eq!(
        navigate(&t, &vec![0, 1]),
        Outcome::Completed("Banana".to_string())
    );
}

#[test]
fn empty_tree_yields_empty_outcome() {
    let t = Tree::from_lines(&lines(&[]));
    assert_eq!(navigate(&t, &vec![]), Outcome::EmptyTree);
}

#[test]
fn empty_tree_ignores_choices() {
    let t = Tree::from_lines(&lines(&["", "   "]));
    assert_eq!(navigate(&t, &vec![0, 1, 2]), Outcome::EmptyTree);
}

#[test]
fn descending_past_unvisited_branches() {
    let t = Tree::from_lines(&lines(&["A", "  B", "    C", "  D"]));
    assert_eq!(navigate(&t, &vec![0, 1]), Outcome::Completed("D".to_string()));
}

#[test]
fn cancelling_at_the_first_prompt() {
    let t = Tree::from_lines(&lines(&["A", "  B"]));
    assert_eq!(navigate(&t, &vec![]), Outcome::Cancelled);
}

#[test]
fn cancelling_below_the_first_prompt() {
    let t = Tree::from_lines(&lines(&["A", "  B", "    C"]));
    assert_eq!(navigate(&t, &vec![0]), Outcome::Cancelled);
}

#[test]
fn out_of_range_choice_cancels() {
    let t = Tree::from_lines(&lines(&["A", "B"]));
    assert_eq!(navigate(&t, &vec![2]), Outcome::Cancelled);
}

#[test]
fn unused_trailing_choices_are_ignored() {
    let t = Tree::from_lines(&lines(&["A", "  B", "    C", "  D"]));
    assert_eq!(
        navigate(&t, &vec![0, 0, 0, 7]),
        Outcome::Completed("C".to_string())
    );
}

#[test]
fn navigation_is_repeatable() {
    let t = Tree::from_lines(&lines(&["A", "  B", "  C", "D"]));
    let first = navigate(&t, &vec![0, 1]);
    let second = navigate(&t, &vec![0, 1]);
    assert_eq!(first, Outcome::Completed("C".to_string()));
    assert_eq!(first, second);
}

#[test]
fn child_labels_lists_options_in_order() {
    let t = Tree::from_lines(&lines(&["Fruit", "    Apple", "Vegetable"]));
    let top = t.child_labels();
    assert_eq!(top, vec!["Fruit".to_string(), "Vegetable".to_string()]);
    assert_eq!(t.children[0].child_labels(), vec!["Apple".to_string()]);
    let none: Vec<String> = Vec::new();
    assert_eq!(t.children[1].child_labels(), none);
}
