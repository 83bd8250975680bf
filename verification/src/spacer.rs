//! The declaration spacer: finds adjacent declarations that lack a
//! canonical blank-line gap (taking interleaved comments and annotations
//! into account), collects the places where a blank line must be ensured,
//! and inserts the missing line feeds from the highest byte offset down,
//! so earlier offsets stay valid while later ones are rewritten.

use vstd::prelude::*;

use crate::point::Point;
use crate::rewrite::EditRecord;
use crate::tree::{kind_is, SyntaxNode};

verus! {

broadcast use vstd::std_specs::vec::group_vec_axioms;

/// A place where a blank line must be ensured: a byte offset and the
/// row/column it stands at.
#[derive(Clone, Copy, PartialEq, Eq, Structural, Debug)]
pub struct InsertionPoint {
    pub byte: usize,
    pub row: usize,
    pub column: usize,
}

/// Comment and annotation nodes may stand between two declarations
/// without breaking their adjacency.
pub open spec fn is_skippable_kind(k: Seq<char>) -> bool {
    k == "comment"@ || k == "annotation"@
}

/// Leading declaration kinds of the first adjacency rule.
pub open spec fn is_lead_a_kind(k: Seq<char>) -> bool {
    ||| k == "variable_statement"@
    ||| k == "function_definition"@
    ||| k == "class_definition"@
    ||| k == "signal_statement"@
    ||| k == "const_statement"@
    ||| k == "enum_definition"@
}

/// Following declaration kinds of the first adjacency rule.
pub open spec fn is_follow_a_kind(k: Seq<char>) -> bool {
    ||| k == "function_definition"@
    ||| k == "constructor_definition"@
    ||| k == "class_definition"@
}

/// Leading declaration kinds of the second adjacency rule.
pub open spec fn is_lead_b_kind(k: Seq<char>) -> bool {
    ||| k == "constructor_definition"@
    ||| k == "function_definition"@
    ||| k == "class_definition"@
}

/// Following declaration kinds of the second adjacency rule.
pub open spec fn is_follow_b_kind(k: Seq<char>) -> bool {
    ||| k == "variable_statement"@
    ||| k == "signal_statement"@
    ||| k == "const_statement"@
    ||| k == "enum_definition"@
}

/// The first index at or after `j` holding a named node, or the length.
pub open spec fn next_named(cs: Seq<SyntaxNode>, j: int) -> int
    decreases cs.len() - j,
{
    if j < 0 || j >= cs.len() {
        cs.len() as int
    } else if cs[j].named {
        j
    } else {
        next_named(cs, j + 1)
    }
}

/// The first index at or after `j` holding a named node that is neither a
/// comment nor an annotation, or the length.
pub open spec fn next_solid(cs: Seq<SyntaxNode>, j: int) -> int
    decreases cs.len() - j,
{
    if j < 0 || j >= cs.len() {
        cs.len() as int
    } else if !cs[j].named || is_skippable_kind(cs[j].kind@) {
        next_solid(cs, j + 1)
    } else {
        j
    }
}

/// The previous line break at or before `q`, or the start of the buffer.
pub open spec fn walk_back(c: Seq<u8>, q: int) -> int
    decreases q,
{
    if q <= 0 {
        0
    } else if 0 <= q < c.len() && c[q] == 10u8 {
        q
    } else {
        walk_back(c, q - 1)
    }
}

/// The first adjacency rule matches at `i`: a leading declaration,
/// followed — immediately, or after a run of comments and annotations —
/// by a following declaration.
pub open spec fn matches_a(cs: Seq<SyntaxNode>, i: int) -> bool {
    let j = next_solid(cs, i + 1);
    &&& 0 <= i < cs.len()
    &&& cs[i].named
    &&& is_lead_a_kind(cs[i].kind@)
    &&& j < cs.len()
    &&& is_follow_a_kind(cs[j].kind@)
}

/// The insertion point for a match of the first rule. When the match
/// holds exactly one intervening comment and that comment starts on the
/// first declaration's own line (a trailing same-line comment), the blank
/// line goes immediately before the second declaration — at column zero
/// of its line, found by walking back to the previous line break — so the
/// comment keeps its trailing position. Otherwise it goes right after the
/// first declaration's end.
pub open spec fn point_a(cs: Seq<SyntaxNode>, i: int, c: Seq<u8>) -> InsertionPoint {
    let j = next_solid(cs, i + 1);
    let cm = next_named(cs, i + 1);
    if cm < j && next_named(cs, cm + 1) == j && cs[cm].start_point.row == cs[i].start_point.row {
        InsertionPoint {
            byte: walk_back(c, cs[j].start_byte as int) as usize,
            row: cs[j].start_point.row,
            column: 0,
        }
    } else {
        InsertionPoint {
            byte: cs[i].end_byte,
            row: cs[i].end_point.row,
            column: cs[i].end_point.column,
        }
    }
}

/// The second adjacency rule matches at `i`: a constructor, function or
/// class followed directly by a variable, signal, constant or enum.
pub open spec fn matches_b(cs: Seq<SyntaxNode>, i: int) -> bool {
    let j = next_named(cs, i + 1);
    &&& 0 <= i < cs.len()
    &&& cs[i].named
    &&& is_lead_b_kind(cs[i].kind@)
    &&& j < cs.len()
    &&& is_follow_b_kind(cs[j].kind@)
}

/// The insertion point for a match of the second rule: right after the
/// first declaration's end.
pub open spec fn point_b(cs: Seq<SyntaxNode>, i: int) -> InsertionPoint {
    InsertionPoint {
        byte: cs[i].end_byte,
        row: cs[i].end_point.row,
        column: cs[i].end_point.column,
    }
}

/// The insertion points of the first rule among the children `cs`, from
/// index `i` on.
pub open spec fn points_a_from(cs: Seq<SyntaxNode>, c: Seq<u8>, i: int) -> Seq<InsertionPoint>
    decreases cs.len() - i,
{
    if i < 0 || i >= cs.len() {
        Seq::empty()
    } else {
        (if matches_a(cs, i) {
            seq![point_a(cs, i, c)]
        } else {
            Seq::empty()
        }) + points_a_from(cs, c, i + 1)
    }
}

/// The insertion points of the second rule among the children `cs`, from
/// index `i` on.
pub open spec fn points_b_from(cs: Seq<SyntaxNode>, i: int) -> Seq<InsertionPoint>
    decreases cs.len() - i,
{
    if i < 0 || i >= cs.len() {
        Seq::empty()
    } else {
        (if matches_b(cs, i) {
            seq![point_b(cs, i)]
        } else {
            Seq::empty()
        }) + points_b_from(cs, i + 1)
    }
}

/// All insertion points of the tree rooted at `n`: both rules among its
/// children, then the same below every child.
pub open spec fn collect_points(n: SyntaxNode, c: Seq<u8>) -> Seq<InsertionPoint>
    decreases n, 0int,
{
    points_a_from(n.children@, c, 0) + points_b_from(n.children@, 0) + collect_children(
        n.children@,
        c,
        0,
    )
}

/// The insertion points below the children `cs[k..]`.
pub open spec fn collect_children(cs: Seq<SyntaxNode>, c: Seq<u8>, k: int) -> Seq<InsertionPoint>
    decreases cs, cs.len() - k,
{
    if k < 0 || k >= cs.len() {
        Seq::empty()
    } else {
        collect_points(cs[k], c) + collect_children(cs, c, k + 1)
    }
}

/// Points are compared by byte offset, then row, then column.
pub open spec fn point_ge(a: InsertionPoint, b: InsertionPoint) -> bool {
    ||| a.byte > b.byte
    ||| (a.byte == b.byte && a.row > b.row)
    ||| (a.byte == b.byte && a.row == b.row && a.column >= b.column)
}

/// Inserting a point into a descending-sorted sequence.
pub open spec fn insert_desc(x: InsertionPoint, s: Seq<InsertionPoint>) -> Seq<InsertionPoint>
    decreases s.len(),
{
    if s.len() == 0 {
        seq![x]
    } else if point_ge(x, s[0]) {
        seq![x] + s
    } else {
        seq![s[0]] + insert_desc(x, s.drop_first())
    }
}

/// Sorting the points in descending order, so that insertions are
/// performed from the highest byte offset down.
pub open spec fn sort_desc(s: Seq<InsertionPoint>) -> Seq<InsertionPoint>
    decreases s.len(),
{
    if s.len() == 0 {
        Seq::empty()
    } else {
        insert_desc(s[0], sort_desc(s.drop_first()))
    }
}

fn exec_skippable(n: &SyntaxNode) -> (r: bool)
    ensures
        r == is_skippable_kind(n.kind@),
{
    kind_is(&n.kind, "comment") || kind_is(&n.kind, "annotation")
}

fn exec_lead_a(n: &SyntaxNode) -> (r: bool)
    ensures
        r == is_lead_a_kind(n.kind@),
{
    kind_is(&n.kind, "variable_statement") || kind_is(&n.kind, "function_definition") || kind_is(
        &n.kind,
        "class_definition",
    ) || kind_is(&n.kind, "signal_statement") || kind_is(&n.kind, "const_statement") || kind_is(
        &n.kind,
        "enum_definition",
    )
}

fn exec_follow_a(n: &SyntaxNode) -> (r: bool)
    ensures
        r == is_follow_a_kind(n.kind@),
{
    kind_is(&n.kind, "function_definition") || kind_is(&n.kind, "constructor_definition")
        || kind_is(&n.kind, "class_definition")
}

fn exec_lead_b(n: &SyntaxNode) -> (r: bool)
    ensures
        r == is_lead_b_kind(n.kind@),
{
    kind_is(&n.kind, "constructor_definition") || kind_is(&n.kind, "function_definition")
        || kind_is(&n.kind, "class_definition")
}

fn exec_follow_b(n: &SyntaxNode) -> (r: bool)
    ensures
        r == is_follow_b_kind(n.kind@),
{
    kind_is(&n.kind, "variable_statement") || kind_is(&n.kind, "signal_statement") || kind_is(
        &n.kind,
        "const_statement",
    ) || kind_is(&n.kind, "enum_definition")
}

fn exec_next_named(cs: &Vec<SyntaxNode>, j: usize) -> (r: usize)
    requires
        j <= cs@.len(),
    ensures
        r == next_named(cs@, j as int),
        j <= r <= cs@.len(),
{
    let mut q = j;
    while q < cs.len() && !cs[q].named
        invariant
            j <= q <= cs@.len(),
            next_named(cs@, j as int) == next_named(cs@, q as int),
            forall|x: int| j <= x < q ==> !cs@[x].named,
        decreases cs@.len() - q,
    {
        q = q + 1;
    }
    q
}

fn exec_next_solid(cs: &Vec<SyntaxNode>, j: usize) -> (r: usize)
    requires
        j <= cs@.len(),
    ensures
        r == next_solid(cs@, j as int),
        j <= r <= cs@.len(),
{
    let mut q = j;
    loop
        invariant
            j <= q <= cs@.len(),
            next_solid(cs@, j as int) == next_solid(cs@, q as int),
        ensures
            q == next_solid(cs@, j as int),
        decreases cs@.len() - q,
    {
        if q >= cs.len() {
            return q;
        }
        if cs[q].named && !exec_skippable(&cs[q]) {
            return q;
        }
        q = q + 1;
    }
}

fn exec_walk_back(c: &Vec<u8>, q0: usize) -> (r: usize)
    ensures
        r == walk_back(c@, q0 as int),
{
    let mut q = q0;
    loop
        invariant
            0 <= q <= q0,
            walk_back(c@, q0 as int) == walk_back(c@, q as int),
        ensures
            q == walk_back(c@, q0 as int),
        decreases q,
    {
        if q == 0 {
            return q;
        }
        if q < c.len() && c[q] == 10u8 {
            return q;
        }
        q = q - 1;
    }
}

/// Collects the insertion points that the two adjacency rules ask for in
/// the tree rooted at `n`, appending them to `out`.
pub fn find_points(n: &SyntaxNode, c: &Vec<u8>, out: &mut Vec<InsertionPoint>)
    ensures
        final(out)@ == old(out)@ + collect_points(*n, c@),
    decreases *n,
{
    let cs = &n.children;
    let count = cs.len();
    let ghost base_a = out@;
    let mut i: usize = 0;
    while i < count
        invariant
            count == cs@.len(),
            i <= count,
            base_a + points_a_from(cs@, c@, 0) == out@ + points_a_from(cs@, c@, i as int),
        decreases count - i,
    {
        if cs[i].named && exec_lead_a(&cs[i]) {
            let j = exec_next_solid(cs, i + 1);
            if j < count && exec_follow_a(&cs[j]) {
                assert(matches_a(cs@, i as int));
                let cm = exec_next_named(cs, i + 1);
                let pt: InsertionPoint = if cm < j && exec_next_named(cs, cm + 1) == j
                    && cs[cm].start_point.row == cs[i].start_point.row {
                    let wb = exec_walk_back(c, cs[j].start_byte);
                    InsertionPoint { byte: wb, row: cs[j].start_point.row, column: 0 }
                } else {
                    InsertionPoint {
                        byte: cs[i].end_byte,
                        row: cs[i].end_point.row,
                        column: cs[i].end_point.column,
                    }
                };
                assert(pt == point_a(cs@, i as int, c@));
                let ghost before = out@;
                out.push(pt);
                proof {
                    let tail = points_a_from(cs@, c@, i as int + 1);
                    assert(points_a_from(cs@, c@, i as int) == seq![pt] + tail);
                    assert(out@ =~= before + seq![pt]);
                    assert(before + (seq![pt] + tail) =~= (before + seq![pt]) + tail);
                }
            } else {
                assert(!matches_a(cs@, i as int));
                assert(points_a_from(cs@, c@, i as int) == Seq::<InsertionPoint>::empty()
                    + points_a_from(cs@, c@, i as int + 1));
            }
        } else {
            assert(!matches_a(cs@, i as int));
            assert(points_a_from(cs@, c@, i as int) == Seq::<InsertionPoint>::empty()
                + points_a_from(cs@, c@, i as int + 1));
        }
        proof {
            assert(Seq::<InsertionPoint>::empty() + points_a_from(cs@, c@, i as int + 1)
                =~= points_a_from(cs@, c@, i as int + 1));
        }
        i = i + 1;
    }
    proof {
        assert(points_a_from(cs@, c@, count as int) =~= Seq::<InsertionPoint>::empty());
        assert(out@ + Seq::<InsertionPoint>::empty() =~= out@);
    }
    let ghost base_b = out@;
    let mut i2: usize = 0;
    while i2 < count
        invariant
            count == cs@.len(),
            i2 <= count,
            base_b + points_b_from(cs@, 0) == out@ + points_b_from(cs@, i2 as int),
        decreases count - i2,
    {
        if cs[i2].named && exec_lead_b(&cs[i2]) {
            let j = exec_next_named(cs, i2 + 1);
            if j < count && exec_follow_b(&cs[j]) {
                assert(matches_b(cs@, i2 as int));
                let pt = InsertionPoint {
                    byte: cs[i2].end_byte,
                    row: cs[i2].end_point.row,
                    column: cs[i2].end_point.column,
                };
                assert(pt == point_b(cs@, i2 as int));
                let ghost before = out@;
                out.push(pt);
                proof {
                    let tail = points_b_from(cs@, i2 as int + 1);
                    assert(points_b_from(cs@, i2 as int) == seq![pt] + tail);
                    assert(out@ =~= before + seq![pt]);
                    assert(before + (seq![pt] + tail) =~= (before + seq![pt]) + tail);
                }
            } else {
                assert(!matches_b(cs@, i2 as int));
            }
        } else {
            assert(!matches_b(cs@, i2 as int));
        }
        proof {
            assert(Seq::<InsertionPoint>::empty() + points_b_from(cs@, i2 as int + 1)
                =~= points_b_from(cs@, i2 as int + 1));
        }
        i2 = i2 + 1;
    }
    proof {
        assert(points_b_from(cs@, count as int) =~= Seq::<InsertionPoint>::empty());
        assert(out@ + Seq::<InsertionPoint>::empty() =~= out@);
    }
    let ghost base_c = out@;
    let mut k: usize = 0;
    while k < count
        invariant
            count == cs@.len(),
            cs@ == n.children@,
            k <= count,
            base_c + collect_children(cs@, c@, 0) == out@ + collect_children(cs@, c@, k as int),
        decreases count - k,
    {
        let ghost before = out@;
        proof {
            assert(decreases_to!(*n => n.children));
            vstd::std_specs::vec::axiom_vec_index_decreases::<SyntaxNode>(n.children, k as int);
        }
        find_points(&cs[k], c, out);
        proof {
            let cp = collect_points(cs@[k as int], c@);
            let tail = collect_children(cs@, c@, k as int + 1);
            assert(collect_children(cs@, c@, k as int) == cp + tail);
            assert(out@ == before + cp);
            assert(before + (cp + tail) =~= (before + cp) + tail);
        }
        k = k + 1;
    }
    proof {
        assert(collect_children(cs@, c@, count as int) =~= Seq::<InsertionPoint>::empty());
        assert(out@ + Seq::<InsertionPoint>::empty() =~= out@);
        assert(base_b + Seq::<InsertionPoint>::empty() =~= base_b);
        assert(base_a + Seq::<InsertionPoint>::empty() =~= base_a);
        assert((base_a + points_a_from(cs@, c@, 0)) + points_b_from(cs@, 0) =~= base_a + (
        points_a_from(cs@, c@, 0) + points_b_from(cs@, 0)));
        assert((base_a + (points_a_from(cs@, c@, 0) + points_b_from(cs@, 0)))
            + collect_children(cs@, c@, 0) =~= base_a + (points_a_from(cs@, c@, 0)
            + points_b_from(cs@, 0) + collect_children(cs@, c@, 0)));
    }
}

/// Sorts the collected points in descending order.
pub fn sort_points(v: Vec<InsertionPoint>) -> (r: Vec<InsertionPoint>)
    ensures
        r@ == sort_desc(v@),
{
    let mut r: Vec<InsertionPoint> = Vec::new();
    let n = v.len();
    let mut i: usize = n;
    while i > 0
        invariant
            i <= n,
            n == v@.len(),
            r@ == sort_desc(v@.skip(i as int)),
        decreases i,
    {
        i = i - 1;
        let x = v[i];
        let ghost pre = r@;
        let mut k: usize = 0;
        loop
            invariant_except_break
                k <= r@.len(),
                forall|j: int| 0 <= j < k ==> !point_ge(x, #[trigger] r@[j]),
                r@ == pre,
            ensures
                r@ == pre,
                k <= r@.len(),
                forall|j: int| 0 <= j < k ==> !point_ge(x, #[trigger] r@[j]),
                k < r@.len() ==> point_ge(x, r@[k as int]),
            decreases r@.len() - k,
        {
            if k >= r.len() {
                break;
            }
            if point_ge2(&x, &r[k]) {
                break;
            }
            k = k + 1;
        }
        r.insert(k, x);
        proof {
            lemma_insert_desc_at(x, pre, k as int);
            assert(r@ =~= pre.subrange(0, k as int) + seq![x] + pre.subrange(
                k as int,
                pre.len() as int,
            ));
            let tail = v@.skip(i as int);
            assert(tail[0] == v@[i as int]);
            assert(tail.drop_first() =~= v@.skip(i as int + 1));
        }
    }
    proof {
        assert(v@.skip(0) =~= v@);
    }
    r
}

/// Compares two points.
fn point_ge2(a: &InsertionPoint, b: &InsertionPoint) -> (r: bool)
    ensures
        r == point_ge(*a, *b),
{
    a.byte > b.byte || (a.byte == b.byte && a.row > b.row) || (a.byte == b.byte && a.row == b.row
        && a.column >= b.column)
}

/// The number of consecutive line feeds at and after position `p`.
pub open spec fn fwd_nl(c: Seq<u8>, p: int) -> int
    decreases c.len() - p,
{
    if p < 0 || p >= c.len() || c[p] != 10u8 {
        0
    } else {
        1 + fwd_nl(c, p + 1)
    }
}

/// The number of consecutive line feeds immediately before position `p`.
pub open spec fn back_nl(c: Seq<u8>, p: int) -> int
    decreases p,
{
    if p <= 0 || p > c.len() || c[p - 1] != 10u8 {
        0
    } else {
        1 + back_nl(c, p - 1)
    }
}

/// The length of the maximal line-feed run adjacent to position `p`:
/// two means the position sits in exactly one blank line.
pub open spec fn gap_at(c: Seq<u8>, p: int) -> int {
    back_nl(c, p) + fwd_nl(c, p)
}

/// An insertion point the buffer can take: inside the buffer and with
/// two more line feeds still fitting the machine's limits.
pub open spec fn point_ok(c: Seq<u8>, p: InsertionPoint) -> bool {
    &&& p.byte <= c.len()
    &&& p.byte + 2 <= usize::MAX
    &&& p.row + 2 <= usize::MAX
}

/// How many line feeds must be inserted at `p` so that the adjacent run
/// reaches two: one ensures separation, the second a true blank line, and
/// a gap that is already two or more is left alone.
pub open spec fn need_at(c: Seq<u8>, p: int) -> int {
    if gap_at(c, p) >= 2 {
        0
    } else {
        2 - gap_at(c, p)
    }
}

/// The buffer with `m` line feeds inserted at position `p`.
pub open spec fn insert_nls(c: Seq<u8>, p: int, m: int) -> Seq<u8> {
    c.subrange(0, p) + Seq::new(m as nat, |i: int| 10u8) + c.subrange(p, c.len() as int)
}

/// The buffer after processing every insertion point in order: at each
/// point the adjacent line-feed run is topped up to two.
pub open spec fn apply_points(c: Seq<u8>, pts: Seq<InsertionPoint>) -> Seq<u8>
    decreases pts.len(),
{
    if pts.len() == 0 {
        c
    } else {
        let p = pts[0];
        let c1 = if point_ok(c, p) {
            insert_nls(c, p.byte as int, need_at(c, p.byte as int))
        } else {
            c
        };
        apply_points(c1, pts.drop_first())
    }
}

/// The edit records the insertions produce, in the order they are
/// applied: a zero-width old range at the insertion point, and the new
/// end moved down by the inserted line feeds.
pub open spec fn spacer_edits(c: Seq<u8>, pts: Seq<InsertionPoint>) -> Seq<EditRecord>
    decreases pts.len(),
{
    if pts.len() == 0 {
        Seq::empty()
    } else {
        let p = pts[0];
        let m = need_at(c, p.byte as int);
        let c1 = if point_ok(c, p) {
            insert_nls(c, p.byte as int, m)
        } else {
            c
        };
        (if point_ok(c, p) && m > 0 {
            seq![
                EditRecord {
                    start_byte: p.byte,
                    old_end_byte: p.byte,
                    new_end_byte: (p.byte + m) as usize,
                    start_point: Point { row: p.row, column: p.column },
                    old_end_point: Point { row: p.row, column: p.column },
                    new_end_point: Point { row: (p.row + m) as usize, column: p.column },
                },
            ]
        } else {
            Seq::empty()
        }) + spacer_edits(c1, pts.drop_first())
    }
}

fn exec_fwd_nl(c: &Vec<u8>, p: usize) -> (r: usize)
    requires
        p <= c@.len(),
    ensures
        r == fwd_nl(c@, p as int),
        p + r <= c@.len(),
{
    let mut q = p;
    while q < c.len() && c[q] == 10u8
        invariant
            p <= q <= c@.len(),
            fwd_nl(c@, p as int) == q - p + fwd_nl(c@, q as int),
        decreases c@.len() - q,
    {
        q = q + 1;
    }
    q - p
}

fn exec_back_nl(c: &Vec<u8>, p: usize) -> (r: usize)
    requires
        p <= c@.len(),
    ensures
        r == back_nl(c@, p as int),
        r <= p,
{
    let mut q = p;
    while q > 0 && c[q - 1] == 10u8
        invariant
            q <= p <= c@.len(),
            back_nl(c@, p as int) == p - q + back_nl(c@, q as int),
        decreases q,
    {
        q = q - 1;
    }
    p - q
}

/// Applies the sorted insertion points to the buffer, from the highest
/// byte offset down, and returns the edit records of the insertions that
/// were performed.
pub fn apply_insertions(content: &mut Vec<u8>, pts: &Vec<InsertionPoint>) -> (edits: Vec<
    EditRecord,
>)
    ensures
        final(content)@ == apply_points(old(content)@, pts@),
        edits@ == spacer_edits(old(content)@, pts@),
{
    let mut edits: Vec<EditRecord> = Vec::new();
    let mut i: usize = 0;
    proof {
        assert(pts@.skip(0) =~= pts@);
        assert(edits@ + spacer_edits(content@, pts@) =~= spacer_edits(content@, pts@));
    }
    while i < pts.len()
        invariant
            i <= pts@.len(),
            apply_points(old(content)@, pts@) == apply_points(content@, pts@.skip(i as int)),
            spacer_edits(old(content)@, pts@) == edits@ + spacer_edits(
                content@,
                pts@.skip(i as int),
            ),
        decreases pts@.len() - i,
    {
        let p = pts[i];
        let ghost tail = pts@.skip(i as int);
        proof {
            assert(tail[0] == pts@[i as int]);
            assert(tail.drop_first() =~= pts@.skip(i as int + 1));
        }
        let ghost c0 = content@;
        if p.byte <= content.len() && p.byte <= usize::MAX - 2 && p.row <= usize::MAX - 2 {
            assert(point_ok(c0, p));
            let back = exec_back_nl(content, p.byte);
            let fwd = exec_fwd_nl(content, p.byte);
            let gap = back + fwd;
            if gap < 2 {
                let m: usize = 2 - gap;
                assert(m == need_at(c0, p.byte as int));
                proof {
                    assert(insert_nls(c0, p.byte as int, 0) =~= c0);
                }
                let mut t: usize = 0;
                while t < m
                    invariant
                        t <= m <= 2,
                        p.byte + m <= usize::MAX,
                        p.byte <= c0.len(),
                        content@.len() == c0.len() + t,
                        content@ == insert_nls(c0, p.byte as int, t as int),
                    decreases m - t,
                {
                    content.insert(p.byte, 10u8);
                    proof {
                        assert(content@ =~= insert_nls(c0, p.byte as int, t as int + 1));
                    }
                    t = t + 1;
                }
                let record = EditRecord {
                    start_byte: p.byte,
                    old_end_byte: p.byte,
                    new_end_byte: p.byte + m,
                    start_point: Point { row: p.row, column: p.column },
                    old_end_point: Point { row: p.row, column: p.column },
                    new_end_point: Point { row: p.row + m, column: p.column },
                };
                let ghost ed0 = edits@;
                edits.push(record);
                proof {
                    let rest = pts@.skip(i as int + 1);
                    assert(spacer_edits(c0, tail) == seq![record] + spacer_edits(content@, rest));
                    assert(edits@ =~= ed0 + seq![record]);
                    assert(ed0 + (seq![record] + spacer_edits(content@, rest)) =~= edits@
                        + spacer_edits(content@, rest));
                }
            } else {
                proof {
                    let rest = pts@.skip(i as int + 1);
                    assert(need_at(c0, p.byte as int) == 0);
                    assert(insert_nls(c0, p.byte as int, 0) =~= c0);
                    assert(spacer_edits(c0, tail) == Seq::<EditRecord>::empty() + spacer_edits(
                        c0,
                        rest,
                    ));
                    assert(Seq::<EditRecord>::empty() + spacer_edits(c0, rest) =~= spacer_edits(
                        c0,
                        rest,
                    ));
                }
            }
        } else {
            proof {
                let rest = pts@.skip(i as int + 1);
                assert(!point_ok(c0, p));
                assert(spacer_edits(c0, tail) == Seq::<EditRecord>::empty() + spacer_edits(
                    c0,
                    rest,
                ));
                assert(Seq::<EditRecord>::empty() + spacer_edits(c0, rest) =~= spacer_edits(
                    c0,
                    rest,
                ));
            }
        }
        i = i + 1;
    }
    proof {
        assert(pts@.skip(pts@.len() as int) =~= Seq::<InsertionPoint>::empty());
        assert(edits@ + Seq::<EditRecord>::empty() =~= edits@);
    }
    edits
}

proof fn lemma_fwd_nl_props(c: Seq<u8>, p: int)
    requires
        0 <= p <= c.len(),
    ensures
        0 <= fwd_nl(c, p) <= c.len() - p,
        forall|x: int| p <= x < p + fwd_nl(c, p) ==> c[x] == 10u8,
        p + fwd_nl(c, p) == c.len() || c[p + fwd_nl(c, p)] != 10u8,
    decreases c.len() - p,
{
    if p < c.len() && c[p] == 10u8 {
        lemma_fwd_nl_props(c, p + 1);
    }
}

proof fn lemma_fwd_nl_of(c: Seq<u8>, p: int, k: int)
    requires
        0 <= p,
        0 <= k,
        p + k <= c.len(),
        forall|x: int| p <= x < p + k ==> c[x] == 10u8,
        p + k == c.len() || c[p + k] != 10u8,
    ensures
        fwd_nl(c, p) == k,
    decreases k,
{
    if k == 0 {
    } else {
        assert(c[p] == 10u8);
        lemma_fwd_nl_of(c, p + 1, k - 1);
    }
}

proof fn lemma_back_nl_props(c: Seq<u8>, p: int)
    requires
        0 <= p <= c.len(),
    ensures
        0 <= back_nl(c, p) <= p,
        forall|x: int| p - back_nl(c, p) <= x < p ==> c[x] == 10u8,
        p - back_nl(c, p) == 0 || c[p - back_nl(c, p) - 1] != 10u8,
    decreases p,
{
    if p > 0 && c[p - 1] == 10u8 {
        lemma_back_nl_props(c, p - 1);
    }
}

proof fn lemma_back_nl_of(c: Seq<u8>, p: int, k: int)
    requires
        0 <= k <= p <= c.len(),
        forall|x: int| p - k <= x < p ==> c[x] == 10u8,
        p - k == 0 || c[p - k - 1] != 10u8,
    ensures
        back_nl(c, p) == k,
    decreases k,
{
    if k == 0 {
    } else {
        assert(c[p - 1] == 10u8);
        lemma_back_nl_of(c, p - 1, k - 1);
    }
}

proof fn lemma_insert_nls_index(c: Seq<u8>, q: int, m: int)
    requires
        0 <= q <= c.len(),
        0 <= m,
    ensures
        insert_nls(c, q, m).len() == c.len() + m,
        forall|x: int| 0 <= x < q ==> insert_nls(c, q, m)[x] == c[x],
        forall|x: int| q <= x < q + m ==> insert_nls(c, q, m)[x] == 10u8,
        forall|x: int| q + m <= x < c.len() + m ==> insert_nls(c, q, m)[x] == c[x - m],
{
}

/// An insertion strictly below a run, separated from it by at least one
/// other byte, shifts the run without changing its length.
proof fn lemma_gap_insert_below(c: Seq<u8>, q: int, m: int, p: int)
    requires
        0 <= q <= c.len(),
        0 <= p <= c.len(),
        0 <= m,
        q + fwd_nl(c, q) < p - back_nl(c, p),
    ensures
        back_nl(insert_nls(c, q, m), p + m) == back_nl(c, p),
        fwd_nl(insert_nls(c, q, m), p + m) == fwd_nl(c, p),
{
    let c1 = insert_nls(c, q, m);
    let b = back_nl(c, p);
    let f = fwd_nl(c, p);
    lemma_back_nl_props(c, p);
    lemma_fwd_nl_props(c, p);
    lemma_fwd_nl_props(c, q);
    lemma_insert_nls_index(c, q, m);
    assert forall|x: int| (p + m) - b <= x < p + m implies c1[x] == 10u8 by {
        assert(c1[x] == c[x - m]);
    }
    lemma_back_nl_of(c1, p + m, b);
    assert forall|x: int| p + m <= x < p + m + f implies c1[x] == 10u8 by {
        assert(c1[x] == c[x - m]);
    }
    if p + f < c.len() {
        assert(c1[p + m + f] == c[p + f]);
    }
    lemma_fwd_nl_of(c1, p + m, f);
}

/// An insertion strictly above a run, separated from it by at least one
/// other byte, leaves the run and its length unchanged.
proof fn lemma_gap_insert_above(c: Seq<u8>, q: int, m: int, p: int)
    requires
        0 <= q <= c.len(),
        0 <= p <= c.len(),
        0 <= m,
        p + fwd_nl(c, p) < q - back_nl(c, q),
    ensures
        back_nl(insert_nls(c, q, m), p) == back_nl(c, p),
        fwd_nl(insert_nls(c, q, m), p) == fwd_nl(c, p),
{
    let c1 = insert_nls(c, q, m);
    let b = back_nl(c, p);
    let f = fwd_nl(c, p);
    lemma_back_nl_props(c, p);
    lemma_fwd_nl_props(c, p);
    lemma_back_nl_props(c, q);
    lemma_insert_nls_index(c, q, m);
    assert forall|x: int| p - b <= x < p implies c1[x] == 10u8 by {
        assert(x < q);
        assert(c1[x] == c[x]);
    }
    if p - b > 0 {
        assert(c1[p - b - 1] == c[p - b - 1]);
    }
    lemma_back_nl_of(c1, p, b);
    assert forall|x: int| p <= x < p + f implies c1[x] == 10u8 by {
        assert(x < q);
        assert(c1[x] == c[x]);
    }
    assert(p + f < q <= c.len());
    assert(c1[p + f] == c[p + f]);
    lemma_fwd_nl_of(c1, p, f);
}

/// Inserting `m` line feeds at a position extends the adjacent run by
/// exactly `m`.
proof fn lemma_gap_insert_self(c: Seq<u8>, p: int, m: int)
    requires
        0 <= p <= c.len(),
        0 <= m,
    ensures
        back_nl(insert_nls(c, p, m), p + m) == back_nl(c, p) + m,
        fwd_nl(insert_nls(c, p, m), p + m) == fwd_nl(c, p),
{
    let c1 = insert_nls(c, p, m);
    let b = back_nl(c, p);
    let f = fwd_nl(c, p);
    lemma_back_nl_props(c, p);
    lemma_fwd_nl_props(c, p);
    lemma_insert_nls_index(c, p, m);
    assert forall|x: int| (p + m) - (b + m) <= x < p + m implies c1[x] == 10u8 by {
        if x < p {
            assert(c1[x] == c[x]);
        }
    }
    if p - b > 0 {
        assert(c1[p - b - 1] == c[p - b - 1]);
    }
    lemma_back_nl_of(c1, p + m, b + m);
    assert forall|x: int| p + m <= x < p + m + f implies c1[x] == 10u8 by {
        assert(c1[x] == c[x - m]);
    }
    if p + f < c.len() {
        assert(c1[p + m + f] == c[p + f]);
    }
    lemma_fwd_nl_of(c1, p + m, f);
}

/// The line feeds a point inserts when the buffer `c` is current.
pub open spec fn eff_need(c: Seq<u8>, p: InsertionPoint) -> int {
    if point_ok(c, p) {
        need_at(c, p.byte as int)
    } else {
        0
    }
}

/// The total number of line feeds the points insert, measured against
/// one fixed buffer.
pub open spec fn need_sum(c: Seq<u8>, pts: Seq<InsertionPoint>) -> int
    decreases pts.len(),
{
    if pts.len() == 0 {
        0
    } else {
        eff_need(c, pts[0]) + need_sum(c, pts.drop_first())
    }
}

/// The run adjacent to `b` ends strictly below the run adjacent to `a`,
/// with at least one other byte between them.
pub open spec fn sep_pair(c: Seq<u8>, a: InsertionPoint, b: InsertionPoint) -> bool {
    b.byte + fwd_nl(c, b.byte as int) < a.byte - back_nl(c, a.byte as int)
}

/// The points stand in strictly descending order and their adjacent
/// line-feed runs are pairwise disjoint.
pub open spec fn runs_separated(c: Seq<u8>, pts: Seq<InsertionPoint>) -> bool {
    forall|i: int, j: int| 0 <= i < j < pts.len() ==> #[trigger] sep_pair(c, pts[i], pts[j])
}

/// Every point lies inside the buffer with room for two line feeds.
pub open spec fn all_ok(c: Seq<u8>, pts: Seq<InsertionPoint>) -> bool {
    forall|k: int| 0 <= k < pts.len() ==> #[trigger] point_ok(c, pts[k])
}

proof fn lemma_need_sum_congruent(c1: Seq<u8>, c2: Seq<u8>, pts: Seq<InsertionPoint>)
    requires
        forall|k: int| 0 <= k < pts.len() ==> eff_need(c1, #[trigger] pts[k]) == eff_need(
            c2,
            pts[k],
        ),
    ensures
        need_sum(c1, pts) == need_sum(c2, pts),
    decreases pts.len(),
{
    if pts.len() > 0 {
        let rest = pts.drop_first();
        assert forall|k: int| 0 <= k < rest.len() implies eff_need(c1, #[trigger] rest[k])
            == eff_need(c2, rest[k]) by {
            assert(rest[k] == pts[k + 1]);
        }
        lemma_need_sum_congruent(c1, c2, rest);
    }
}

proof fn lemma_step_preserves(c: Seq<u8>, pts: Seq<InsertionPoint>)
    requires
        runs_separated(c, pts),
        all_ok(c, pts),
        pts.len() > 0,
    ensures
        ({
            let p0 = pts[0];
            let m0 = need_at(c, p0.byte as int);
            let c1 = insert_nls(c, p0.byte as int, m0);
            let rest = pts.drop_first();
            &&& forall|k: int|
                0 <= k < rest.len() ==> (back_nl(c1, #[trigger] rest[k].byte as int) == back_nl(
                    c,
                    rest[k].byte as int,
                ) && fwd_nl(c1, rest[k].byte as int) == fwd_nl(c, rest[k].byte as int))
            &&& runs_separated(c1, rest)
            &&& all_ok(c1, rest)
            &&& forall|k: int|
                0 <= k < rest.len() ==> eff_need(c1, #[trigger] rest[k]) == eff_need(c, rest[k])
            &&& need_sum(c1, rest) == need_sum(c, rest)
        }),
{
    let p0 = pts[0];
    let m0 = need_at(c, p0.byte as int);
    let c1 = insert_nls(c, p0.byte as int, m0);
    let rest = pts.drop_first();
    assert(point_ok(c, p0));
    lemma_back_nl_props(c, p0.byte as int);
    lemma_fwd_nl_props(c, p0.byte as int);
    assert(m0 >= 0);
    assert forall|k: int|
        0 <= k < rest.len() implies (back_nl(c1, #[trigger] rest[k].byte as int) == back_nl(
        c,
        rest[k].byte as int,
    ) && fwd_nl(c1, rest[k].byte as int) == fwd_nl(c, rest[k].byte as int)) by {
        assert(rest[k] == pts[k + 1]);
        assert(sep_pair(c, pts[0], pts[k + 1]));
        assert(point_ok(c, pts[k + 1]));
        lemma_gap_insert_above(c, p0.byte as int, m0, rest[k].byte as int);
    }
    assert forall|i: int, j: int| 0 <= i < j < rest.len() implies #[trigger] sep_pair(
        c1,
        rest[i],
        rest[j],
    ) by {
        assert(rest[i] == pts[i + 1] && rest[j] == pts[j + 1]);
        assert(sep_pair(c, pts[i + 1], pts[j + 1]));
    }
    assert forall|k: int| 0 <= k < rest.len() implies #[trigger] point_ok(c1, rest[k]) by {
        assert(rest[k] == pts[k + 1]);
        assert(point_ok(c, pts[k + 1]));
        lemma_insert_nls_index(c, p0.byte as int, m0);
    }
    assert forall|k: int| 0 <= k < rest.len() implies eff_need(c1, #[trigger] rest[k])
        == eff_need(c, rest[k]) by {
        assert(rest[k] == pts[k + 1]);
        assert(point_ok(c, pts[k + 1]));
    }
    lemma_need_sum_congruent(c1, c, rest);
}

/// A position strictly above every point keeps its run length through the
/// whole application, at its shifted place.
proof fn lemma_gap_through_apply(c: Seq<u8>, pts: Seq<InsertionPoint>, p: int)
    requires
        runs_separated(c, pts),
        all_ok(c, pts),
        0 <= p <= c.len(),
        forall|k: int|
            0 <= k < pts.len() ==> #[trigger] pts[k].byte + fwd_nl(c, pts[k].byte as int) < p
                - back_nl(c, p),
    ensures
        back_nl(apply_points(c, pts), p + need_sum(c, pts)) == back_nl(c, p),
        fwd_nl(apply_points(c, pts), p + need_sum(c, pts)) == fwd_nl(c, p),
    decreases pts.len(),
{
    if pts.len() > 0 {
        let p0 = pts[0];
        let m0 = need_at(c, p0.byte as int);
        let c1 = insert_nls(c, p0.byte as int, m0);
        let rest = pts.drop_first();
        assert(point_ok(c, p0));
        lemma_back_nl_props(c, p0.byte as int);
        lemma_fwd_nl_props(c, p0.byte as int);
        assert(pts[0].byte + fwd_nl(c, pts[0].byte as int) < p - back_nl(c, p));
        lemma_gap_insert_below(c, p0.byte as int, m0, p);
        lemma_step_preserves(c, pts);
        assert forall|k: int|
            0 <= k < rest.len() implies #[trigger] rest[k].byte + fwd_nl(c1, rest[k].byte as int)
            < (p + m0) - back_nl(c1, p + m0) by {
            assert(rest[k] == pts[k + 1]);
            assert(pts[k + 1].byte + fwd_nl(c, pts[k + 1].byte as int) < p - back_nl(c, p));
        }
        lemma_insert_nls_index(c, p0.byte as int, m0);
        lemma_gap_through_apply(c1, rest, p + m0);
        assert(apply_points(c, pts) == apply_points(c1, rest));
        assert(eff_need(c, p0) == m0);
        assert(need_sum(c, pts) == m0 + need_sum(c, rest));
        assert(need_sum(c1, rest) == need_sum(c, rest));
    }
}

/// The blank-line invariant of the spacer. After applying the sorted
/// insertion points — whose adjacent line-feed runs are pairwise disjoint
/// and all inside the buffer — every point's adjacent run in the output,
/// found at its shifted position, has length exactly two (one blank
/// line) wherever it was shorter, and is left as it was wherever it
/// already reached two: never fewer, and never more than it had.
pub proof fn lemma_spacer_blank_lines(c: Seq<u8>, pts: Seq<InsertionPoint>)
    requires
        runs_separated(c, pts),
        all_ok(c, pts),
    ensures
        forall|k: int|
            0 <= k < pts.len() ==> gap_at(
                apply_points(c, pts),
                #[trigger] pts[k].byte + need_sum(c, pts.skip(k)),
            ) == (if gap_at(c, pts[k].byte as int) >= 2 {
                gap_at(c, pts[k].byte as int)
            } else {
                2
            }),
    decreases pts.len(),
{
    if pts.len() == 0 {
    } else {
        let p0 = pts[0];
        let m0 = need_at(c, p0.byte as int);
        let c1 = insert_nls(c, p0.byte as int, m0);
        let rest = pts.drop_first();
        assert(point_ok(c, p0));
        lemma_back_nl_props(c, p0.byte as int);
        lemma_fwd_nl_props(c, p0.byte as int);
        lemma_step_preserves(c, pts);
        lemma_gap_insert_self(c, p0.byte as int, m0);
        lemma_insert_nls_index(c, p0.byte as int, m0);
        lemma_spacer_blank_lines(c1, rest);
        assert(apply_points(c, pts) == apply_points(c1, rest));
        assert forall|k: int| 0 <= k < pts.len() implies gap_at(
            apply_points(c, pts),
            #[trigger] pts[k].byte + need_sum(c, pts.skip(k)),
        ) == (if gap_at(c, pts[k].byte as int) >= 2 {
            gap_at(c, pts[k].byte as int)
        } else {
            2
        }) by {
            if k == 0 {
                assert forall|t: int|
                    0 <= t < rest.len() implies #[trigger] rest[t].byte + fwd_nl(
                    c1,
                    rest[t].byte as int,
                ) < (p0.byte + m0) - back_nl(c1, p0.byte as int + m0) by {
                    assert(rest[t] == pts[t + 1]);
                    assert(sep_pair(c, pts[0], pts[t + 1]));
                }
                lemma_gap_through_apply(c1, rest, p0.byte as int + m0);
                assert(pts.skip(0) =~= pts);
                assert(need_sum(c, pts) == eff_need(c, p0) + need_sum(c, rest));
                assert(eff_need(c, p0) == m0);
                assert(need_sum(c1, rest) == need_sum(c, rest));
                assert(gap_at(c1, p0.byte as int + m0) == gap_at(c, p0.byte as int) + m0);
            } else {
                assert(rest[k - 1] == pts[k]);
                assert(gap_at(
                    apply_points(c1, rest),
                    rest[k - 1].byte + need_sum(c1, rest.skip(k - 1)),
                ) == (if gap_at(c1, rest[k - 1].byte as int) >= 2 {
                    gap_at(c1, rest[k - 1].byte as int)
                } else {
                    2
                }));
                assert(rest.skip(k - 1) =~= pts.skip(k));
                assert forall|t: int|
                    0 <= t < pts.skip(k).len() implies eff_need(c1, #[trigger] pts.skip(k)[t])
                    == eff_need(c, pts.skip(k)[t]) by {
                    assert(pts.skip(k)[t] == rest[k - 1 + t]);
                    assert(eff_need(c1, rest[k - 1 + t]) == eff_need(c, rest[k - 1 + t]));
                }
                lemma_need_sum_congruent(c1, c, pts.skip(k));
                assert(back_nl(c1, rest[k - 1].byte as int) == back_nl(c, pts[k].byte as int)
                    && fwd_nl(c1, rest[k - 1].byte as int) == fwd_nl(c, pts[k].byte as int));
            }
        }
    }
}

/// The spacer is idempotent at its insertion points: where every point's
/// adjacent line-feed run already holds a blank line, nothing is
/// inserted and the buffer comes back unchanged — running the spacer
/// over its own output is a no-op.
pub proof fn lemma_spacer_idempotent(c: Seq<u8>, pts: Seq<InsertionPoint>)
    requires
        forall|k: int| 0 <= k < pts.len() ==> gap_at(c, #[trigger] pts[k].byte as int) >= 2,
    ensures
        apply_points(c, pts) == c,
    decreases pts.len(),
{
    if pts.len() > 0 {
        let p = pts[0];
        assert(gap_at(c, pts[0].byte as int) >= 2);
        let rest = pts.drop_first();
        if point_ok(c, p) {
            assert(need_at(c, p.byte as int) == 0);
            assert(insert_nls(c, p.byte as int, 0) =~= c);
        }
        assert forall|k: int| 0 <= k < rest.len() implies gap_at(
            c,
            #[trigger] rest[k].byte as int,
        ) >= 2 by {
            assert(rest[k] == pts[k + 1]);
            assert(gap_at(c, pts[k + 1].byte as int) >= 2);
        }
        lemma_spacer_idempotent(c, rest);
    }
}

/// Everything before the lowest insertion point is byte-identical after
/// the spacer. In particular, when a trailing same-line comment moves the
/// insertion point to the line break before the second declaration, the
/// whole of the first declaration's line — the comment included — comes
/// through unchanged, so the comment keeps its trailing position.
pub proof fn lemma_apply_points_preserves_prefix(c: Seq<u8>, pts: Seq<InsertionPoint>, x: int)
    requires
        0 <= x <= c.len(),
        forall|k: int| 0 <= k < pts.len() ==> x <= #[trigger] pts[k].byte,
    ensures
        apply_points(c, pts).len() >= c.len(),
        apply_points(c, pts).subrange(0, x) == c.subrange(0, x),
    decreases pts.len(),
{
    if pts.len() == 0 {
    } else {
        let p = pts[0];
        let rest = pts.drop_first();
        assert(p == pts[0]);
        let c1 = if point_ok(c, p) {
            insert_nls(c, p.byte as int, need_at(c, p.byte as int))
        } else {
            c
        };
        if point_ok(c, p) {
            lemma_back_nl_props(c, p.byte as int);
            lemma_fwd_nl_props(c, p.byte as int);
            lemma_insert_nls_index(c, p.byte as int, need_at(c, p.byte as int));
            assert(c1.subrange(0, x) =~= c.subrange(0, x));
        }
        assert forall|k: int| 0 <= k < rest.len() implies x <= #[trigger] rest[k].byte by {
            assert(rest[k] == pts[k + 1]);
        }
        lemma_apply_points_preserves_prefix(c1, rest, x);
        assert(apply_points(c1, rest).subrange(0, x) == c1.subrange(0, x));
    }
}

/// Inserting at the first position whose element is not greater matches
/// the specification of sorted insertion.
proof fn lemma_insert_desc_at(x: InsertionPoint, s: Seq<InsertionPoint>, k: int)
    requires
        0 <= k <= s.len(),
        forall|j: int| 0 <= j < k ==> !point_ge(x, #[trigger] s[j]),
        k < s.len() ==> point_ge(x, s[k]),
    ensures
        insert_desc(x, s) == s.subrange(0, k) + seq![x] + s.subrange(k, s.len() as int),
    decreases s.len(),
{
    if s.len() == 0 {
        assert(insert_desc(x, s) =~= s.subrange(0, k) + seq![x] + s.subrange(k, s.len() as int));
    } else if k == 0 {
        assert(point_ge(x, s[0]));
        assert(insert_desc(x, s) == seq![x] + s);
        assert(seq![x] + s =~= s.subrange(0, 0) + seq![x] + s.subrange(0, s.len() as int));
    } else {
        assert(!point_ge(x, s[0]));
        lemma_insert_desc_at(x, s.drop_first(), k - 1);
        assert(s.drop_first().subrange(0, k - 1) =~= s.subrange(1, k));
        assert(s.drop_first().subrange(k - 1, s.drop_first().len() as int) =~= s.subrange(
            k,
            s.len() as int,
        ));
        assert(seq![s[0]] + (s.subrange(1, k) + seq![x] + s.subrange(k, s.len() as int))
            =~= s.subrange(0, k) + seq![x] + s.subrange(k, s.len() as int));
    }
}

} // verus!
