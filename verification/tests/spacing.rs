use gdscript_formatter::point::Point;
use gdscript_formatter::spacer::{apply_insertions, find_points, sort_points, InsertionPoint};
use gdscript_formatter::tree::SyntaxNode;

fn decl(kind: &str, kind_id: u16, start: usize, end: usize, row: usize) -> SyntaxNode {
    SyntaxNode {
        kind: kind.to_string(),
        kind_id,
        named: true,
        start_byte: start,
        end_byte: end,
        start_point: Point { row, column: 0 },
        end_point: Point { row, column: end - start },
        children: vec![],
    }
}

fn source(end: usize, children: Vec<SyntaxNode>) -> SyntaxNode {
    SyntaxNode {
        kind: "source".to_string(),
        kind_id: 1,
        named: true,
        start_byte: 0,
        end_byte: end,
        start_point: Point { row: 0, column: 0 },
        end_point: Point { row: 9, column: 0 },
        children,
    }
}

#[test]
fn adjacent_functions_get_one_insertion_point_after_the_first() {
    // func a():..  ends at byte 16 (before its line feed); func b follows
    let content: Vec<u8> = b"func a():\n\tpass\nfunc b():\n\tpass\n".to_vec();
    let tree = source(
        32,
        vec![
            decl("function_definition", 20, 0, 15, 0),
            decl("function_definition", 20, 16, 31, 2),
        ],
    );
    let mut pts: Vec<InsertionPoint> = Vec::new();
    find_points(&tree, &content, &mut pts);
    assert_eq!(pts.len(), 1);
    assert_eq!(pts[0].byte, 15);
}

#[test]
fn insertion_tops_the_gap_up_to_one_blank_line() {
    let mut content: Vec<u8> = b"func a():\n\tpass\nfunc b():\n\tpass\n".to_vec();
    let pts = vec![InsertionPoint { byte: 15, row: 1, column: 5 }];
    let edits = apply_insertions(&mut content, &pts);
    assert_eq!(content, b"func a():\n\tpass\n\nfunc b():\n\tpass\n".to_vec());
    assert_eq!(edits.len(), 1);
    assert_eq!(edits[0].start_byte, 15);
    assert_eq!(edits[0].old_end_byte, 15);
    assert_eq!(edits[0].new_end_byte, 16);
    assert_eq!(edits[0].new_end_point, Point { row: 2, column: 5 });
}

#[test]
fn an_existing_blank_line_is_left_alone() {
    let original: Vec<u8> = b"func a():\n\tpass\n\nfunc b():\n\tpass\n".to_vec();
    let mut content = original.clone();
    let pts = vec![InsertionPoint { byte: 15, row: 1, column: 5 }];
    let edits = apply_insertions(&mut content, &pts);
    assert_eq!(content, original);
    assert_eq!(edits.len(), 0);
}

#[test]
fn missing_separator_gains_both_line_feeds() {
    let mut content: Vec<u8> = b"ab".to_vec();
    let pts = vec![InsertionPoint { byte: 1, row: 0, column: 1 }];
    let edits = apply_insertions(&mut content, &pts);
    assert_eq!(content, b"a\n\nb".to_vec());
    assert_eq!(edits[0].new_end_byte, 3);
}

#[test]
fn variable_then_function_matches_but_not_function_then_expression() {
    let content: Vec<u8> = b"var x = 1\nfunc a():\n\tpass\nprint(1)\n".to_vec();
    let tree = source(
        35,
        vec![
            decl("variable_statement", 30, 0, 9, 0),
            decl("function_definition", 20, 10, 25, 1),
            decl("expression_statement", 40, 26, 34, 3),
        ],
    );
    let mut pts: Vec<InsertionPoint> = Vec::new();
    find_points(&tree, &content, &mut pts);
    assert_eq!(pts.len(), 1);
    assert_eq!(pts[0].byte, 9);
}

#[test]
fn function_then_variable_matches_the_second_rule() {
    let content: Vec<u8> = b"func a():\n\tpass\nvar x = 1\n".to_vec();
    let tree = source(
        26,
        vec![decl("function_definition", 20, 0, 15, 0), decl("variable_statement", 30, 16, 25, 2)],
    );
    let mut pts: Vec<InsertionPoint> = Vec::new();
    find_points(&tree, &content, &mut pts);
    assert_eq!(pts.len(), 1);
    assert_eq!(pts[0].byte, 15);
}

#[test]
fn same_line_trailing_comment_moves_the_insertion_before_the_second_declaration() {
    // var x = 1 # note\nfunc a():...  - comment starts on the variable's line
    let content: Vec<u8> = b"var x = 1 # note\nfunc a():\n\tpass\n".to_vec();
    let mut comment = decl("comment", 50, 10, 16, 0);
    comment.start_point = Point { row: 0, column: 10 };
    let tree = source(
        33,
        vec![
            decl("variable_statement", 30, 0, 9, 0),
            comment,
            decl("function_definition", 20, 17, 32, 1),
        ],
    );
    let mut pts: Vec<InsertionPoint> = Vec::new();
    find_points(&tree, &content, &mut pts);
    assert_eq!(pts.len(), 1);
    // walked back to the line feed that ends the comment's line
    assert_eq!(pts[0].byte, 16);
    assert_eq!(pts[0].column, 0);
    let mut buf = content.clone();
    apply_insertions(&mut buf, &pts);
    assert_eq!(buf, b"var x = 1 # note\n\nfunc a():\n\tpass\n".to_vec());
}

#[test]
fn comment_on_its_own_line_keeps_the_insertion_after_the_first_declaration() {
    let content: Vec<u8> = b"var x = 1\n# note\nfunc a():\n\tpass\n".to_vec();
    let mut comment = decl("comment", 50, 10, 16, 1);
    comment.start_point = Point { row: 1, column: 0 };
    let tree = source(
        33,
        vec![
            decl("variable_statement", 30, 0, 9, 0),
            comment,
            decl("function_definition", 20, 17, 32, 2),
        ],
    );
    let mut pts: Vec<InsertionPoint> = Vec::new();
    find_points(&tree, &content, &mut pts);
    assert_eq!(pts.len(), 1);
    assert_eq!(pts[0].byte, 9);
}

#[test]
fn points_are_sorted_descending_before_application() {
    let pts = vec![
        InsertionPoint { byte: 3, row: 0, column: 3 },
        InsertionPoint { byte: 11, row: 1, column: 4 },
        InsertionPoint { byte: 7, row: 0, column: 7 },
    ];
    let sorted = sort_points(pts);
    assert_eq!(sorted[0].byte, 11);
    assert_eq!(sorted[1].byte, 7);
    assert_eq!(sorted[2].byte, 3);
}

#[test]
fn two_insertions_applied_from_the_highest_offset_down() {
    // three declarations with no blank lines: a\nb\nc
    let mut content: Vec<u8> = b"a\nb\nc".to_vec();
    let pts = sort_points(vec![
        InsertionPoint { byte: 1, row: 0, column: 1 },
        InsertionPoint { byte: 3, row: 1, column: 1 },
    ]);
    apply_insertions(&mut content, &pts);
    assert_eq!(content, b"a\n\nb\n\nc".to_vec());
}
