use gdscript_formatter::point::{calculate_end_position, Point};

#[test]
fn advances_columns_within_a_line() {
    let content: Vec<u8> = b"hello".to_vec();
    let start = Point { row: 0, column: 0 };
    let end = calculate_end_position(start, &content, 0, 5);
    assert_eq!(end, Point { row: 0, column: 5 });
}

#[test]
fn line_feed_moves_to_next_row_and_zeroes_column() {
    let content: Vec<u8> = b"ab\ncd".to_vec();
    let start = Point { row: 3, column: 7 };
    let end = calculate_end_position(start, &content, 0, 5);
    assert_eq!(end, Point { row: 4, column: 2 });
}

#[test]
fn empty_span_keeps_the_point() {
    let content: Vec<u8> = b"abc".to_vec();
    let start = Point { row: 2, column: 9 };
    let end = calculate_end_position(start, &content, 1, 1);
    assert_eq!(end, start);
}

#[test]
fn consecutive_line_feeds_each_count() {
    let content: Vec<u8> = b"\n\n\n".to_vec();
    let start = Point { row: 0, column: 4 };
    let end = calculate_end_position(start, &content, 0, 3);
    assert_eq!(end, Point { row: 3, column: 0 });
}
