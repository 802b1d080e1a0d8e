use wtp::Tree;

fn lines(xs: &[&str]) -> Vec<String> {
    xs.iter().map(|x| x.to_string()).collect()
}

#[test]
fn two_domains_with_children() {
    let t = Tree::from_lines(&lines(&[
        "Fruit",
        "    Apple",
        "    Banana",
        "Vegetable",
        "    Carrot",
    ]));
    assert_eq!(t.key, "");
    assert_eq!(t.children.len(), 2);
    assert_eq!(t.children[0].key, "Fruit");
    assert_eq!(t.children[0].children.len(), 2);
    assert_eq!(t.children[0].children[0].key, "Apple");
    assert_eq!(t.children[0].children[0].children.len(), 0);
    assert_eq!(t.children[0].children[1].key, "Banana");
    assert_eq!(t.children[1].key, "Vegetable");
    assert_eq!(t.children[1].children.len(), 1);
    assert_eq!(t.children[1].children[0].key, "Carrot");
}

#[test]
fn empty_input_gives_bare_root() {
    let t = Tree::from_lines(&lines(&[]));
    assert_eq!(t.key, "");
    assert_eq!(t.children.len(), 0);
}

#[test]
fn nesting_and_dedent() {
    let t = Tree::from_lines(&lines(&["A", "  B", "    C", "  D"]));
    assert_eq!(t.children.len(), 1);
    let a = &t.children[0];
    assert_eq!(a.key, "A");
    assert_eq!(a.children.len(), 2);
    assert_eq!(a.children[0].key, "B");
    assert_eq!(a.children[0].children.len(), 1);
    assert_eq!(a.children[0].children[0].key, "C");
    assert_eq!(a.children[1].key, "D");
    assert_eq!(a.children[1].children.len(), 0);
}

#[test]
fn equal_indentation_makes_siblings() {
    let t = Tree::from_lines(&lines(&["A", "B", "C"]));
    assert_eq!(t.children.len(), 3);
    assert_eq!(t.children[0].key, "A");
    assert_eq!(t.children[1].key, "B");
    assert_eq!(t.children[2].key, "C");
    assert_eq!(t.children[0].children.len(), 0);
}

#[test]
fn dedent_to_strictly_shallower_ancestor() {
    // C's level 2 closes B (level 4) and joins A (level 0).
    let t = Tree::from_lines(&lines(&["A", "    B", "  C"]));
    assert_eq!(t.children.len(), 1);
    let a = &t.children[0];
    assert_eq!(a.children.len(), 2);
    assert_eq!(a.children[0].key, "B");
    assert_eq!(a.children[0].children.len(), 0);
    assert_eq!(a.children[1].key, "C");
}

#[test]
fn trailing_open_chain_is_flushed() {
    let t = Tree::from_lines(&lines(&["A", "  B", "    C"]));
    assert_eq!(t.children.len(), 1);
    assert_eq!(t.children[0].key, "A");
    assert_eq!(t.children[0].children.len(), 1);
    assert_eq!(t.children[0].children[0].key, "B");
    assert_eq!(t.children[0].children[0].children.len(), 1);
    assert_eq!(t.children[0].children[0].children[0].key, "C");
}

#[test]
fn blank_and_whitespace_lines_change_nothing() {
    let plain = Tree::from_lines(&lines(&["A", "  B", "    C", "  D"]));
    let spaced = Tree::from_lines(&lines(&[
        "", "A", "   ", "  B", "", "\t", "    C", "  D", "",
    ]));
    assert_eq!(plain, spaced);
}

#[test]
fn indentation_counts_characters_not_width() {
    // One tab counts as one whitespace character, so B (two spaces) is
    // deeper than A (one tab).
    let t = Tree::from_lines(&lines(&["\tA", "  B"]));
    assert_eq!(t.children.len(), 1);
    assert_eq!(t.children[0].key, "A");
    assert_eq!(t.children[0].children.len(), 1);
    assert_eq!(t.children[0].children[0].key, "B");
}

#[test]
fn duplicate_labels_are_kept_verbatim() {
    let t = Tree::from_lines(&lines(&["X", "X", "  X"]));
    assert_eq!(t.children.len(), 2);
    assert_eq!(t.children[0].key, "X");
    assert_eq!(t.children[0].children.len(), 0);
    assert_eq!(t.children[1].key, "X");
    assert_eq!(t.children[1].children.len(), 1);
    assert_eq!(t.children[1].children[0].key, "X");
}

#[test]
fn labels_keep_inner_and_trailing_whitespace() {
    let t = Tree::from_lines(&lines(&["  a b  "]));
    assert_eq!(t.children.len(), 1);
    assert_eq!(t.children[0].key, "a b  ");
}

#[test]
fn multibyte_labels_survive() {
    let t = Tree::from_lines(&lines(&["caf\u{e9}", "  \u{4e2d}\u{6587}"]));
    assert_eq!(t.children.len(), 1);
    assert_eq!(t.children[0].key, "caf\u{e9}");
    assert_eq!(t.children[0].children[0].key, "\u{4e2d}\u{6587}");
}

#[test]
fn new_makes_a_childless_node() {
    let t = Tree::new("only".to_string());
    assert_eq!(t.key, "only");
    assert_eq!(t.children.len(), 0);
}
