use gdscript_formatter::point::Point;
use gdscript_formatter::tree::{compare_trees, SyntaxNode};

fn node(kind: &str, kind_id: u16, children: Vec<SyntaxNode>) -> SyntaxNode {
    SyntaxNode {
        kind: kind.to_string(),
        kind_id,
        named: true,
        start_byte: 0,
        end_byte: 0,
        start_point: Point { row: 0, column: 0 },
        end_point: Point { row: 0, column: 0 },
        children,
    }
}

#[test]
fn a_tree_equals_itself() {
    let t = node(
        "source",
        1,
        vec![node("function_definition", 2, vec![node("body", 3, vec![])]), node(
            "variable_statement",
            4,
            vec![],
        )],
    );
    assert!(compare_trees(&t, &t));
}

#[test]
fn different_child_counts_at_the_root_differ() {
    let a = node("source", 1, vec![node("pass_statement", 2, vec![])]);
    let b = node("source", 1, vec![]);
    assert!(!compare_trees(&a, &b));
}

#[test]
fn different_child_counts_below_the_root_differ() {
    let a = node("source", 1, vec![node("body", 2, vec![node("pass_statement", 3, vec![])])]);
    let b = node("source", 1, vec![node("body", 2, vec![])]);
    assert!(!compare_trees(&a, &b));
}

#[test]
fn different_kind_identities_differ() {
    let a = node("source", 1, vec![node("pass_statement", 2, vec![])]);
    let b = node("source", 1, vec![node("return_statement", 9, vec![])]);
    assert!(!compare_trees(&a, &b));
}

#[test]
fn positions_and_text_play_no_part() {
    let mut a = node("source", 1, vec![node("pass_statement", 2, vec![])]);
    let mut b = node("source", 1, vec![node("pass_statement", 2, vec![])]);
    a.start_byte = 0;
    a.end_byte = 10;
    b.start_byte = 5;
    b.end_byte = 25;
    b.children[0].kind = "renamed".to_string();
    assert!(compare_trees(&a, &b));
}
