use gdscript_formatter::point::Point;
use gdscript_formatter::rewrite::{apply_rewrites, filter_outside_strings, Rewrite};
use gdscript_formatter::tree::{in_string, SyntaxNode};

fn leaf(kind: &str, start: usize, end: usize) -> SyntaxNode {
    SyntaxNode {
        kind: kind.to_string(),
        kind_id: 7,
        named: true,
        start_byte: start,
        end_byte: end,
        start_point: Point { row: 0, column: start },
        end_point: Point { row: 0, column: end },
        children: vec![],
    }
}

fn root(start: usize, end: usize, children: Vec<SyntaxNode>) -> SyntaxNode {
    SyntaxNode {
        kind: "source".to_string(),
        kind_id: 1,
        named: true,
        start_byte: start,
        end_byte: end,
        start_point: Point { row: 0, column: 0 },
        end_point: Point { row: 0, column: end },
        children,
    }
}

#[test]
fn splices_replacements_in_source_order() {
    let content: Vec<u8> = b"a;b;c".to_vec();
    let ms = vec![
        Rewrite { start: 1, end: 2, text: b"X".to_vec() },
        Rewrite { start: 3, end: 4, text: b"".to_vec() },
    ];
    let (out, edits) = apply_rewrites(&content, &ms);
    assert_eq!(out, b"aXbc".to_vec());
    assert_eq!(edits.len(), 2);
}

#[test]
fn edit_records_carry_exact_deltas() {
    let content: Vec<u8> = b"ab\ncd;e".to_vec();
    let ms = vec![Rewrite { start: 5, end: 6, text: b"XY".to_vec() }];
    let (out, edits) = apply_rewrites(&content, &ms);
    assert_eq!(out, b"ab\ncdXYe".to_vec());
    assert_eq!(edits.len(), 1);
    let e = &edits[0];
    assert_eq!(e.start_byte, 5);
    assert_eq!(e.old_end_byte, 6);
    assert_eq!(e.new_end_byte, 7);
    assert_eq!(e.start_point, Point { row: 1, column: 2 });
    assert_eq!(e.old_end_point, Point { row: 1, column: 3 });
    assert_eq!(e.new_end_point, Point { row: 1, column: 4 });
}

#[test]
fn growing_replacement_keeps_later_offsets_in_original_coordinates() {
    let content: Vec<u8> = b"a;b;".to_vec();
    let ms = vec![
        Rewrite { start: 1, end: 2, text: b"!!!".to_vec() },
        Rewrite { start: 3, end: 4, text: b"?".to_vec() },
    ];
    let (out, edits) = apply_rewrites(&content, &ms);
    assert_eq!(out, b"a!!!b?".to_vec());
    assert_eq!(edits[1].start_byte, 3);
    assert_eq!(edits[1].old_end_byte, 4);
    assert_eq!(edits[1].new_end_byte, 4);
    assert_eq!(edits[1].start_point, Point { row: 0, column: 3 });
}

#[test]
fn matches_starting_inside_strings_are_dropped() {
    // buffer: x = "a;b"; the string literal spans bytes 4..9
    let content: Vec<u8> = b"x = \"a;b\"".to_vec();
    let tree = root(0, 9, vec![leaf("identifier", 0, 1), leaf("string", 4, 9)]);
    assert!(in_string(&tree, 6));
    assert!(!in_string(&tree, 1));
    let ms = vec![Rewrite { start: 6, end: 7, text: b"".to_vec() }];
    let kept = filter_outside_strings(ms, &tree);
    assert_eq!(kept.len(), 0);
    let ms2 = vec![
        Rewrite { start: 0, end: 1, text: b"y".to_vec() },
        Rewrite { start: 6, end: 7, text: b"".to_vec() },
    ];
    let kept2 = filter_outside_strings(ms2, &tree);
    assert_eq!(kept2.len(), 1);
    let (out, _) = apply_rewrites(&content, &kept2);
    assert_eq!(out, b"y = \"a;b\"".to_vec());
}

#[test]
fn nested_string_nodes_are_found() {
    let inner = leaf("string", 2, 5);
    let wrapper = SyntaxNode { children: vec![inner], ..root(0, 8, vec![]) };
    let tree = root(0, 8, vec![wrapper]);
    assert!(in_string(&tree, 3));
    assert!(!in_string(&tree, 6));
}
