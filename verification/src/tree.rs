//! The syntax tree model: what the pipeline reads out of the parser as
//! plain values (kind name, grammar identity, byte and point ranges,
//! children), the structural comparator used by safe mode, and the
//! string-literal test used by the outside-string rewriter.

use vstd::prelude::*;

use crate::point::Point;

verus! {

broadcast use vstd::std_specs::vec::group_vec_axioms;

/// One node of a parsed syntax tree, held as plain values.
pub struct SyntaxNode {
    /// The grammar's name for this node's kind, e.g. `function_definition`.
    pub kind: String,
    /// The grammar's numeric identity for the kind; what structural
    /// comparison goes by.
    pub kind_id: u16,
    /// Whether the grammar names this node (anonymous tokens such as
    /// punctuation are unnamed).
    pub named: bool,
    /// Byte range `[start_byte, end_byte)` the node spans in the buffer.
    pub start_byte: usize,
    pub end_byte: usize,
    /// Row/column range the node spans.
    pub start_point: Point,
    pub end_point: Point,
    pub children: Vec<SyntaxNode>,
}

/// Structural identity of two trees: the same kind identity and the same
/// child count at every position.
pub open spec fn structural_eq(a: SyntaxNode, b: SyntaxNode) -> bool
    decreases a,
{
    &&& a.kind_id == b.kind_id
    &&& a.children@.len() == b.children@.len()
    &&& forall|i: int|
        0 <= i < a.children@.len() ==> structural_eq(#[trigger] a.children@[i], b.children@[i])
}

/// Returns true if both trees have the same structure: the same shape and
/// the same node-kind identities at every position. Source positions and
/// literal text play no part.
pub fn compare_trees(a: &SyntaxNode, b: &SyntaxNode) -> (r: bool)
    ensures
        r == structural_eq(*a, *b),
    decreases *a,
{
    if a.kind_id != b.kind_id {
        return false;
    }
    if a.children.len() != b.children.len() {
        return false;
    }
    let n = a.children.len();
    let mut i: usize = 0;
    while i < n
        invariant
            n == a.children@.len() == b.children@.len(),
            a.kind_id == b.kind_id,
            i <= n,
            forall|j: int| 0 <= j < i ==> structural_eq(#[trigger] a.children@[j], b.children@[j]),
        decreases n - i,
    {
        if !compare_trees(&a.children[i], &b.children[i]) {
            return false;
        }
        i = i + 1;
    }
    true
}

/// Every tree is structurally identical to itself.
pub proof fn lemma_structural_eq_reflexive(a: SyntaxNode)
    ensures
        structural_eq(a, a),
    decreases a,
{
    assert forall|i: int| 0 <= i < a.children@.len() implies structural_eq(
        #[trigger] a.children@[i],
        a.children@[i],
    ) by {
        lemma_structural_eq_reflexive(a.children@[i]);
    }
}

/// The node reached from `n` by taking the child indices in `path`, if
/// every index is in range.
pub open spec fn node_at(n: SyntaxNode, path: Seq<int>) -> Option<SyntaxNode>
    decreases path.len(),
{
    if path.len() == 0 {
        Some(n)
    } else if 0 <= path[0] < n.children@.len() {
        node_at(n.children@[path[0]], path.drop_first())
    } else {
        None
    }
}

/// Structurally identical trees agree at every position: the node reached
/// by any path exists in both and carries the same kind identity and the
/// same child count. Contrapositively, trees that differ in child count
/// at any position are never structurally identical.
pub proof fn lemma_structural_eq_at_path(a: SyntaxNode, b: SyntaxNode, path: Seq<int>)
    requires
        structural_eq(a, b),
        node_at(a, path) is Some,
    ensures
        node_at(b, path) is Some,
        node_at(a, path)->Some_0.kind_id == node_at(b, path)->Some_0.kind_id,
        node_at(a, path)->Some_0.children@.len() == node_at(b, path)->Some_0.children@.len(),
    decreases path.len(),
{
    if path.len() == 0 {
    } else {
        lemma_structural_eq_at_path(a.children@[path[0]], b.children@[path[0]], path.drop_first());
    }
}

/// Whether byte offset `b` lies inside a string-literal node of `n`: some
/// node on a chain of covering nodes from the root carries the kind
/// `string`.
pub open spec fn spec_in_string(n: SyntaxNode, b: int) -> bool
    decreases n,
{
    &&& n.start_byte <= b < n.end_byte
    &&& (n.kind@ == "string"@ || exists|i: int|
        0 <= i < n.children@.len() && spec_in_string(#[trigger] n.children@[i], b))
}

/// Compares a node's kind name against `name`.
pub fn kind_is(kind: &String, name: &str) -> (r: bool)
    ensures
        r == (kind@ == name@),
{
    let other = String::from_str(name);
    *kind == other
}

/// Returns true if byte offset `b` falls inside a string-literal node of
/// the tree `n`.
pub fn in_string(n: &SyntaxNode, b: usize) -> (r: bool)
    ensures
        r == spec_in_string(*n, b as int),
    decreases *n,
{
    if !(n.start_byte <= b && b < n.end_byte) {
        return false;
    }
    if kind_is(&n.kind, "string") {
        return true;
    }
    let count = n.children.len();
    let mut i: usize = 0;
    while i < count
        invariant
            count == n.children@.len(),
            i <= count,
            n.start_byte <= b < n.end_byte,
            forall|j: int| 0 <= j < i ==> !spec_in_string(#[trigger] n.children@[j], b as int),
        decreases count - i,
    {
        if in_string(&n.children[i], b) {
            assert(spec_in_string(n.children@[i as int], b as int));
            return true;
        }
        i = i + 1;
    }
    false
}

} // verus!
