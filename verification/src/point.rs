//! Row/column coordinates and the position translator: advancing a point
//! over a span of bytes, the way every tree edit's coordinates are derived.

use vstd::prelude::*;

verus! {

/// A position in a text buffer: zero-indexed row and column.
#[derive(Clone, Copy, PartialEq, Eq, Structural, Debug)]
pub struct Point {
    pub row: usize,
    pub column: usize,
}

/// The point reached by scanning `s` byte by byte from `(row, column)`:
/// a line feed moves to the start of the next row, any other byte
/// advances the column.
pub open spec fn point_after(row: int, column: int, s: Seq<u8>) -> (int, int)
    decreases s.len(),
{
    if s.len() == 0 {
        (row, column)
    } else if s[0] == 10u8 {
        point_after(row + 1, 0, s.drop_first())
    } else {
        point_after(row, column + 1, s.drop_first())
    }
}

pub proof fn lemma_point_after_push(row: int, column: int, s: Seq<u8>, b: u8)
    ensures
        point_after(row, column, s.push(b)) == (if b == 10u8 {
            (point_after(row, column, s).0 + 1, 0int)
        } else {
            (point_after(row, column, s).0, point_after(row, column, s).1 + 1)
        }),
    decreases s.len(),
{
    if s.len() == 0 {
        assert(s.push(b).drop_first() =~= Seq::<u8>::empty());
        assert(s.push(b)[0] == b);
        assert(point_after(row + 1, 0, Seq::<u8>::empty()) == (row + 1, 0int));
        assert(point_after(row, column + 1, Seq::<u8>::empty()) == (row, column + 1));
    } else {
        assert(s.push(b).drop_first() =~= s.drop_first().push(b));
        assert(s.push(b)[0] == s[0]);
        if s[0] == 10u8 {
            lemma_point_after_push(row + 1, 0, s.drop_first(), b);
            assert(point_after(row, column, s.push(b)) == point_after(
                row + 1,
                0,
                s.drop_first().push(b),
            ));
            assert(point_after(row, column, s) == point_after(row + 1, 0, s.drop_first()));
        } else {
            lemma_point_after_push(row, column + 1, s.drop_first(), b);
            assert(point_after(row, column, s.push(b)) == point_after(
                row,
                column + 1,
                s.drop_first().push(b),
            ));
            assert(point_after(row, column, s) == point_after(row, column + 1, s.drop_first()));
        }
    }
}

pub proof fn lemma_point_after_concat(row: int, column: int, s: Seq<u8>, t: Seq<u8>)
    ensures
        point_after(row, column, s + t) == point_after(
            point_after(row, column, s).0,
            point_after(row, column, s).1,
            t,
        ),
    decreases s.len(),
{
    if s.len() == 0 {
        assert(s + t =~= t);
    } else {
        assert((s + t).drop_first() =~= s.drop_first() + t);
        if s[0] == 10u8 {
            lemma_point_after_concat(row + 1, 0, s.drop_first(), t);
        } else {
            lemma_point_after_concat(row, column + 1, s.drop_first(), t);
        }
    }
}

pub proof fn lemma_point_after_bounds(row: int, column: int, s: Seq<u8>)
    requires
        0 <= column,
    ensures
        row <= point_after(row, column, s).0 <= row + s.len(),
        0 <= point_after(row, column, s).1 <= column + s.len(),
    decreases s.len(),
{
    if s.len() > 0 {
        if s[0] == 10u8 {
            lemma_point_after_bounds(row + 1, 0, s.drop_first());
        } else {
            lemma_point_after_bounds(row, column + 1, s.drop_first());
        }
    }
}

/// Calculates the end position of the span `content[from..to]` counting
/// from `start`.
pub fn calculate_end_position(start: Point, content: &Vec<u8>, from: usize, to: usize) -> (r: Point)
    requires
        from <= to <= content@.len(),
        start.row + (to - from) <= usize::MAX,
        start.column + (to - from) <= usize::MAX,
    ensures
        r.row == point_after(
            start.row as int,
            start.column as int,
            content@.subrange(from as int, to as int),
        ).0,
        r.column == point_after(
            start.row as int,
            start.column as int,
            content@.subrange(from as int, to as int),
        ).1,
{
    let mut row: usize = start.row;
    let mut column: usize = start.column;
    let mut i: usize = from;
    while i < to
        invariant
            from <= i <= to <= content@.len(),
            start.row + (to - from) <= usize::MAX,
            start.column + (to - from) <= usize::MAX,
            row <= start.row + (i - from),
            column <= start.column + (i - from),
            row == point_after(
                start.row as int,
                start.column as int,
                content@.subrange(from as int, i as int),
            ).0,
            column == point_after(
                start.row as int,
                start.column as int,
                content@.subrange(from as int, i as int),
            ).1,
        decreases to - i,
    {
        let b = content[i];
        proof {
            assert(content@.subrange(from as int, i as int + 1) =~= content@.subrange(
                from as int,
                i as int,
            ).push(content@[i as int]));
            lemma_point_after_push(
                start.row as int,
                start.column as int,
                content@.subrange(from as int, i as int),
                content@[i as int],
            );
        }
        if b == 10u8 {
            row = row + 1;
            column = 0;
        } else {
            column = column + 1;
        }
        i = i + 1;
    }
    Point { row, column }
}

} // verus!
