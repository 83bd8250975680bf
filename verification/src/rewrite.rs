//! The string-aware rewriter core: applying a list of pattern matches to
//! the buffer in source order, skipping matches that start inside string
//! literals, and producing the edit records that keep a syntax tree
//! consistent with the new text.

use vstd::prelude::*;

use crate::point::{calculate_end_position, lemma_point_after_bounds, lemma_point_after_concat,
    point_after, Point};
use crate::tree::{in_string, spec_in_string, SyntaxNode};

verus! {

/// One replacement to perform: the bytes `[start, end)` of the buffer are
/// replaced by `text`.
pub struct Rewrite {
    pub start: usize,
    pub end: usize,
    pub text: Vec<u8>,
}

/// One text mutation's byte and position delta, in the shape the tree
/// engine consumes: `old_*` fields use pre-mutation coordinates, `new_*`
/// fields post-mutation coordinates.
#[derive(Clone, Copy, PartialEq, Eq, Structural, Debug)]
pub struct EditRecord {
    pub start_byte: usize,
    pub old_end_byte: usize,
    pub new_end_byte: usize,
    pub start_point: Point,
    pub old_end_point: Point,
    pub new_end_point: Point,
}

/// The matches are in source order, non-overlapping, and inside the
/// buffer: all of it pairwise, so that dropping matches keeps it true.
pub open spec fn matches_valid(ms: Seq<Rewrite>, len: int) -> bool {
    &&& forall|i: int| 0 <= i < ms.len() ==> #[trigger] ms[i].start <= ms[i].end <= len
    &&& forall|i: int, j: int| 0 <= i < j < ms.len() ==> #[trigger] ms[i].end <= #[trigger] ms[j].start
}

/// Machine-limit bounds: every replacement keeps byte offsets and point
/// rows within `usize`.
pub open spec fn matches_fit(ms: Seq<Rewrite>, len: int) -> bool {
    forall|i: int| 0 <= i < ms.len() ==> (#[trigger] ms[i].start + ms[i].text@.len() <= usize::MAX
        && len + ms[i].text@.len() <= usize::MAX)
}

/// The buffer that results from replacing each match span with its
/// replacement text, scanning from offset `from`.
pub open spec fn splice(c: Seq<u8>, ms: Seq<Rewrite>, from: int) -> Seq<u8>
    decreases ms.len(),
{
    if ms.len() == 0 {
        c.subrange(from, c.len() as int)
    } else {
        c.subrange(from, ms[0].start as int) + ms[0].text@ + splice(c, ms.drop_first(), ms[0].end as int)
    }
}

/// The edit record for one match, with the running point entering the
/// pending span at `(row, col)` after offset `from`.
pub open spec fn edit_for(c: Seq<u8>, m: Rewrite, from: int, row: int, col: int) -> EditRecord {
    let sp = point_after(row, col, c.subrange(from, m.start as int));
    let op = point_after(sp.0, sp.1, c.subrange(m.start as int, m.end as int));
    let np = point_after(sp.0, sp.1, m.text@);
    EditRecord {
        start_byte: m.start,
        old_end_byte: m.end,
        new_end_byte: (m.start + m.text@.len()) as usize,
        start_point: Point { row: sp.0 as usize, column: sp.1 as usize },
        old_end_point: Point { row: op.0 as usize, column: op.1 as usize },
        new_end_point: Point { row: np.0 as usize, column: np.1 as usize },
    }
}

/// The edit records for all matches in source order. The running point is
/// advanced over copied and replaced spans of the original buffer, so all
/// points are accurate however many earlier replacements changed lengths.
pub open spec fn edits_for(c: Seq<u8>, ms: Seq<Rewrite>, from: int, row: int, col: int) -> Seq<
    EditRecord,
>
    decreases ms.len(),
{
    if ms.len() == 0 {
        Seq::empty()
    } else {
        let sp = point_after(row, col, c.subrange(from, ms[0].start as int));
        let op = point_after(sp.0, sp.1, c.subrange(ms[0].start as int, ms[0].end as int));
        seq![edit_for(c, ms[0], from, row, col)] + edits_for(
            c,
            ms.drop_first(),
            ms[0].end as int,
            op.0,
            op.1,
        )
    }
}

/// The matches of `ms` whose start byte lies outside every string-literal
/// node of `t`, in order.
pub open spec fn kept_matches(ms: Seq<Rewrite>, t: SyntaxNode) -> Seq<Rewrite>
    decreases ms.len(),
{
    if ms.len() == 0 {
        Seq::empty()
    } else if !spec_in_string(t, ms[0].start as int) {
        seq![ms[0]] + kept_matches(ms.drop_first(), t)
    } else {
        kept_matches(ms.drop_first(), t)
    }
}

/// Appends `src[from..to]` to `out`.
pub fn push_range(out: &mut Vec<u8>, src: &Vec<u8>, from: usize, to: usize)
    requires
        from <= to <= src@.len(),
    ensures
        final(out)@ == old(out)@ + src@.subrange(from as int, to as int),
{
    let mut i: usize = from;
    while i < to
        invariant
            from <= i <= to <= src@.len(),
            out@ == old(out)@ + src@.subrange(from as int, i as int),
        decreases to - i,
    {
        out.push(src[i]);
        proof {
            assert(src@.subrange(from as int, i as int + 1) =~= src@.subrange(
                from as int,
                i as int,
            ).push(src@[i as int]));
            assert(old(out)@ + src@.subrange(from as int, i as int + 1) =~= (old(out)@
                + src@.subrange(from as int, i as int)).push(src@[i as int]));
        }
        i = i + 1;
    }
    proof {
        if from == to {
            assert(out@ =~= old(out)@ + src@.subrange(from as int, to as int));
        }
    }
}

/// Keeps only the matches whose start byte lies outside every
/// string-literal node of `t`.
pub fn filter_outside_strings(ms: Vec<Rewrite>, t: &SyntaxNode) -> (r: Vec<Rewrite>)
    ensures
        r@ == kept_matches(ms@, *t),
{
    let ghost orig = ms@;
    let mut ms = ms;
    let mut r: Vec<Rewrite> = Vec::new();
    while ms.len() > 0
        invariant
            kept_matches(orig, *t) == r@ + kept_matches(ms@, *t),
        decreases ms@.len(),
    {
        let m = ms.remove(0);
        let ghost pre = seq![m] + ms@;
        assert(pre.drop_first() =~= ms@);
        if !in_string(t, m.start) {
            r.push(m);
            assert(kept_matches(pre, *t) == seq![m] + kept_matches(ms@, *t));
        } else {
            assert(kept_matches(pre, *t) == kept_matches(ms@, *t));
        }
    }
    proof {
        assert(kept_matches(ms@, *t) =~= Seq::<Rewrite>::empty());
        assert(r@ =~= r@ + Seq::<Rewrite>::empty());
    }
    r
}

/// Dropping the first match keeps the matches valid.
pub proof fn lemma_valid_drop_first(ms: Seq<Rewrite>, len: int)
    requires
        matches_valid(ms, len),
        ms.len() > 0,
    ensures
        matches_valid(ms.drop_first(), len),
{
    let rest = ms.drop_first();
    assert forall|i: int| 0 <= i < rest.len() implies #[trigger] rest[i].start <= rest[i].end
        <= len by {
        assert(rest[i] == ms[i + 1]);
        assert(ms[i + 1].start <= ms[i + 1].end <= len);
    }
    assert forall|i: int, j: int| 0 <= i < j < rest.len() implies #[trigger] rest[i].end
        <= #[trigger] rest[j].start by {
        assert(rest[i] == ms[i + 1] && rest[j] == ms[j + 1]);
        assert(ms[i + 1].end <= ms[j + 1].start);
    }
}

/// Filtering preserves order and bounds; every kept match is one of the
/// originals, and none of them starts inside a string literal of `t`.
pub proof fn lemma_kept_valid(ms: Seq<Rewrite>, t: SyntaxNode, len: int)
    requires
        matches_valid(ms, len),
    ensures
        matches_valid(kept_matches(ms, t), len),
        forall|k: int|
            0 <= k < kept_matches(ms, t).len() ==> exists|i: int|
                0 <= i < ms.len() && #[trigger] kept_matches(ms, t)[k] == ms[i],
        forall|k: int|
            0 <= k < kept_matches(ms, t).len() ==> !spec_in_string(
                t,
                #[trigger] kept_matches(ms, t)[k].start as int,
            ),
    decreases ms.len(),
{
    if ms.len() == 0 {
    } else {
        let rest = ms.drop_first();
        lemma_valid_drop_first(ms, len);
        lemma_kept_valid(rest, t, len);
        let kr = kept_matches(rest, t);
        if !spec_in_string(t, ms[0].start as int) {
            let k = kept_matches(ms, t);
            assert(k == seq![ms[0]] + kr);
            assert forall|a: int, b: int| 0 <= a < b < k.len() implies #[trigger] k[a].end
                <= #[trigger] k[b].start by {
                if a == 0 {
                    let i = choose|i: int| 0 <= i < rest.len() && kr[b - 1] == rest[i];
                    assert(rest[i] == ms[i + 1]);
                    assert(ms[0].end <= ms[i + 1].start);
                } else {
                    assert(k[a] == kr[a - 1] && k[b] == kr[b - 1]);
                }
            }
            assert forall|a: int| 0 <= a < k.len() implies #[trigger] k[a].start <= k[a].end
                <= len by {
                if a > 0 {
                    assert(k[a] == kr[a - 1]);
                }
            }
            assert forall|a: int| 0 <= a < k.len() implies exists|i: int|
                0 <= i < ms.len() && #[trigger] k[a] == ms[i] by {
                if a == 0 {
                    assert(k[0] == ms[0]);
                } else {
                    let i = choose|i: int| 0 <= i < rest.len() && kr[a - 1] == rest[i];
                    assert(k[a] == ms[i + 1]);
                }
            }
            assert forall|a: int| 0 <= a < k.len() implies !spec_in_string(
                t,
                #[trigger] k[a].start as int,
            ) by {
                if a > 0 {
                    assert(k[a] == kr[a - 1]);
                }
            }
        } else {
            assert forall|a: int| 0 <= a < kr.len() implies exists|i: int|
                0 <= i < ms.len() && #[trigger] kr[a] == ms[i] by {
                let i = choose|i: int| 0 <= i < rest.len() && kr[a] == rest[i];
                assert(kr[a] == ms[i + 1]);
            }
        }
    }
}

/// The byte-offset shift that the matches ending at or before `lo` cause
/// to positions at `lo` and beyond.
pub open spec fn shift_at(ms: Seq<Rewrite>, lo: int) -> int
    decreases ms.len(),
{
    if ms.len() == 0 {
        0
    } else if ms[0].end <= lo {
        ms[0].text@.len() - (ms[0].end - ms[0].start) + shift_at(ms.drop_first(), lo)
    } else {
        0
    }
}

/// A span of the buffer that no match touches comes through the splice
/// byte-identical, shifted by the length deltas of the matches before it.
pub proof fn lemma_splice_preserves_range(
    c: Seq<u8>,
    ms: Seq<Rewrite>,
    from: int,
    lo: int,
    hi: int,
)
    requires
        matches_valid(ms, c.len() as int),
        0 <= from <= lo,
        lo <= hi <= c.len(),
        forall|i: int| 0 <= i < ms.len() ==> from <= #[trigger] ms[i].start,
        forall|i: int| 0 <= i < ms.len() ==> (#[trigger] ms[i].end <= lo || hi <= ms[i].start),
    ensures
        0 <= lo - from + shift_at(ms, lo),
        hi - from + shift_at(ms, lo) <= splice(c, ms, from).len(),
        splice(c, ms, from).subrange(lo - from + shift_at(ms, lo), hi - from + shift_at(ms, lo))
            == c.subrange(lo, hi),
    decreases ms.len(),
{
    let s = splice(c, ms, from);
    let d = shift_at(ms, lo);
    if ms.len() == 0 {
        assert(s.subrange(lo - from, hi - from) =~= c.subrange(lo, hi));
    } else {
        let m0 = ms[0];
        let rest = ms.drop_first();
        let prefix = c.subrange(from, m0.start as int) + m0.text@;
        let tail = splice(c, rest, m0.end as int);
        assert(s == prefix + tail);
        lemma_valid_drop_first(ms, c.len() as int);
        if m0.end <= lo {
            assert forall|i: int| 0 <= i < rest.len() implies m0.end as int
                <= #[trigger] rest[i].start by {
                assert(rest[i] == ms[i + 1]);
                assert(ms[0].end <= ms[i + 1].start);
            }
            assert forall|i: int|
                0 <= i < rest.len() implies (#[trigger] rest[i].end <= lo || hi
                <= rest[i].start) by {
                assert(rest[i] == ms[i + 1]);
            }
            lemma_splice_preserves_range(c, rest, m0.end as int, lo, hi);
            let dr = shift_at(rest, lo);
            assert(d == m0.text@.len() - (m0.end - m0.start) + dr);
            let x = lo - m0.end + dr;
            let y = hi - m0.end + dr;
            assert(prefix.len() == (m0.start - from) + m0.text@.len());
            assert(lo - from + d == prefix.len() + x);
            assert(hi - from + d == prefix.len() + y);
            assert(s.subrange(prefix.len() + x, prefix.len() + y) =~= tail.subrange(x, y));
        } else {
            assert forall|i: int| 0 <= i < ms.len() implies hi <= #[trigger] ms[i].start by {
                if i > 0 {
                    assert(ms[0].end <= ms[i].start);
                    assert(ms[0].start <= ms[0].end);
                    if ms[i].end <= lo {
                        assert(ms[i].start <= ms[i].end);
                        assert(ms[0].end <= lo);
                    }
                }
            }
            assert(d == 0);
            assert(hi - from <= m0.start as int - from);
            assert(s.subrange(lo - from, hi - from) =~= c.subrange(
                from,
                m0.start as int,
            ).subrange(lo - from, hi - from));
            assert(c.subrange(from, m0.start as int).subrange(lo - from, hi - from)
                =~= c.subrange(lo, hi));
        }
    }
}

/// String-safety: when a span `[lo, hi)` of the buffer lies inside a
/// string-literal node of `t`, and no match reaching into the span starts
/// before it, the outside-string rewrite leaves the span byte-identical,
/// at its shifted position.
pub proof fn lemma_string_safety(c: Seq<u8>, t: SyntaxNode, ms: Seq<Rewrite>, lo: int, hi: int)
    requires
        matches_valid(ms, c.len() as int),
        0 <= lo <= hi <= c.len(),
        forall|b: int| lo <= b < hi ==> spec_in_string(t, b),
        forall|i: int| 0 <= i < ms.len() && #[trigger] ms[i].start < lo ==> ms[i].end <= lo,
    ensures
        splice(c, kept_matches(ms, t), 0).subrange(
            lo + shift_at(kept_matches(ms, t), lo),
            hi + shift_at(kept_matches(ms, t), lo),
        ) == c.subrange(lo, hi),
{
    let kept = kept_matches(ms, t);
    lemma_kept_valid(ms, t, c.len() as int);
    assert forall|k: int| 0 <= k < kept.len() implies (#[trigger] kept[k].end <= lo || hi
        <= kept[k].start) by {
        assert(!spec_in_string(t, kept[k].start as int));
        let i = choose|i: int| 0 <= i < ms.len() && kept[k] == ms[i];
        if kept[k].start < lo {
            assert(ms[i].start < lo);
        } else if (kept[k].start as int) < hi {
            assert(spec_in_string(t, kept[k].start as int));
        }
    }
    lemma_splice_preserves_range(c, kept, 0, lo, hi);
}

/// Applies the matches to the buffer, producing the new buffer and the
/// edit records needed to keep a syntax tree consistent with it. The
/// matches must already be filtered: every one of them is applied.
pub fn apply_rewrites(content: &Vec<u8>, ms: &Vec<Rewrite>) -> (r: (Vec<u8>, Vec<EditRecord>))
    requires
        matches_valid(ms@, content@.len() as int),
        matches_fit(ms@, content@.len() as int),
    ensures
        r.0@ == splice(content@, ms@, 0),
        r.1@ == edits_for(content@, ms@, 0, 0, 0),
{
    let len = content.len();
    let mut out: Vec<u8> = Vec::new();
    let mut edits: Vec<EditRecord> = Vec::new();
    let mut last: usize = 0;
    let mut pt = Point { row: 0, column: 0 };
    let mut i: usize = 0;
    proof {
        assert(ms@.skip(0) =~= ms@);
        assert(out@ + splice(content@, ms@, 0) =~= splice(content@, ms@, 0));
        assert(edits@ + edits_for(content@, ms@, 0, 0, 0) =~= edits_for(content@, ms@, 0, 0, 0));
        assert(content@.subrange(0, 0) =~= Seq::<u8>::empty());
    }
    while i < ms.len()
        invariant
            matches_valid(ms@, content@.len() as int),
            matches_fit(ms@, content@.len() as int),
            len == content@.len(),
            i <= ms@.len(),
            last <= content@.len(),
            i > 0 ==> last == ms@[i - 1].end,
            i == 0 ==> last == 0,
            pt.row as int == point_after(0, 0, content@.subrange(0, last as int)).0,
            pt.column as int == point_after(0, 0, content@.subrange(0, last as int)).1,
            splice(content@, ms@, 0) == out@ + splice(content@, ms@.skip(i as int), last as int),
            edits_for(content@, ms@, 0, 0, 0) == edits@ + edits_for(
                content@,
                ms@.skip(i as int),
                last as int,
                pt.row as int,
                pt.column as int,
            ),
        decreases ms@.len() - i,
    {
        let start = ms[i].start;
        let end = ms[i].end;
        assert(ms@[i as int].start <= ms@[i as int].end <= content@.len());
        assert(last <= start) by {
            if i > 0 {
                assert(ms@[i - 1].end <= ms@[i as int].start);
            }
        }
        proof {
            lemma_point_after_bounds(0, 0, content@.subrange(0, last as int));
        }
        let sp = calculate_end_position(pt, content, last, start);
        proof {
            lemma_point_after_concat(
                0,
                0,
                content@.subrange(0, last as int),
                content@.subrange(last as int, start as int),
            );
            assert(content@.subrange(0, last as int) + content@.subrange(
                last as int,
                start as int,
            ) =~= content@.subrange(0, start as int));
            lemma_point_after_bounds(0, 0, content@.subrange(0, start as int));
            assert(ms@[i as int].start + ms@[i as int].text@.len() <= usize::MAX);
            assert(content@.len() + ms@[i as int].text@.len() <= usize::MAX);
        }
        let op = calculate_end_position(sp, content, start, end);
        let text_len = ms[i].text.len();
        let np = calculate_end_position(sp, &ms[i].text, 0, text_len);
        proof {
            assert(ms@[i as int].text@.subrange(0, ms@[i as int].text@.len() as int)
                =~= ms@[i as int].text@);
        }
        let ghost out0 = out@;
        let ghost ed0 = edits@;
        push_range(&mut out, content, last, start);
        push_range(&mut out, &ms[i].text, 0, text_len);
        let record = EditRecord {
            start_byte: start,
            old_end_byte: end,
            new_end_byte: start + text_len,
            start_point: sp,
            old_end_point: op,
            new_end_point: np,
        };
        edits.push(record);
        proof {
            let tail = ms@.skip(i as int);
            let rest = ms@.skip(i as int + 1);
            let copied = content@.subrange(last as int, start as int);
            let text = ms@[i as int].text@;
            assert(tail[0] == ms@[i as int]);
            assert(tail.drop_first() =~= rest);
            assert(record == edit_for(
                content@,
                ms@[i as int],
                last as int,
                pt.row as int,
                pt.column as int,
            ));
            assert(splice(content@, tail, last as int) == copied + text + splice(
                content@,
                rest,
                end as int,
            ));
            assert(out@ == out0 + copied + text);
            assert(out0 + (copied + text + splice(content@, rest, end as int)) =~= (out0 + copied
                + text) + splice(content@, rest, end as int));
            assert(splice(content@, ms@, 0) == out@ + splice(content@, rest, end as int));
            lemma_point_after_concat(
                0,
                0,
                content@.subrange(0, start as int),
                content@.subrange(start as int, end as int),
            );
            assert(content@.subrange(0, start as int) + content@.subrange(
                start as int,
                end as int,
            ) =~= content@.subrange(0, end as int));
            assert(edits_for(content@, tail, last as int, pt.row as int, pt.column as int)
                == seq![record] + edits_for(content@, rest, end as int, op.row as int, op.column as int));
            assert(edits@ =~= ed0 + seq![record]);
            assert(ed0 + (seq![record] + edits_for(
                content@,
                rest,
                end as int,
                op.row as int,
                op.column as int,
            )) =~= edits@ + edits_for(content@, rest, end as int, op.row as int, op.column as int));
            assert(edits_for(content@, ms@, 0, 0, 0) == edits@ + edits_for(
                content@,
                rest,
                end as int,
                op.row as int,
                op.column as int,
            ));
        }
        last = end;
        pt = op;
        i = i + 1;
    }
    proof {
        assert(ms@.skip(i as int) =~= Seq::<Rewrite>::empty());
        assert(edits@ + edits_for(
            content@,
            Seq::<Rewrite>::empty(),
            last as int,
            pt.row as int,
            pt.column as int,
        ) =~= edits@);
    }
    let ghost out1 = out@;
    push_range(&mut out, content, last, len);
    proof {
        assert(splice(content@, Seq::<Rewrite>::empty(), last as int) == content@.subrange(
            last as int,
            len as int,
        ));
        assert(out@ == out1 + content@.subrange(last as int, len as int));
    }
    (out, edits)
}

} // verus!
