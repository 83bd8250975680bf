//! The boundary to the outside engines: tree-sitter for parsing, Topiary
//! for the main tree-to-text formatting pass, and the regex engine for
//! the textual pattern matches. Each item here is trusted: its contract
//! states what the outside call returns, and everything else of the
//! library is proved against these contracts.

use vstd::prelude::*;
use vstd::utf8::{encode_utf8, valid_utf8};

use crate::rewrite::{matches_valid, Rewrite};
use crate::tree::SyntaxNode;
use crate::point::Point;

verus! {

/// The tree-sitter parser, declared so it can stand in fields and
/// signatures; opaque to the proofs.
#[verifier::external_type_specification]
#[verifier::external_body]
pub struct ExParser(tree_sitter::Parser);

/// A node of a tree-sitter tree; only the conversion below touches one.
#[verifier::external_type_specification]
#[verifier::external_body]
pub struct ExNode<'a>(tree_sitter::Node<'a>);

/// Topiary's compiled language: grammar, style query and indent unit.
#[verifier::external_type_specification]
#[verifier::external_body]
pub struct ExLanguage(topiary_core::Language);

/// The parser is configured for the GDScript grammar with default
/// settings (no included ranges, no timeout), as `make_parser` leaves it:
/// only such a parser's trees are the grammar's trees of the bytes.
pub uninterp spec fn parser_ready(p: tree_sitter::Parser) -> bool;

/// The Topiary language value carries the GDScript grammar, as
/// `build_language` built it.
pub uninterp spec fn gdscript_language(l: topiary_core::Language) -> bool;

/// The syntax tree that the GDScript grammar gives a buffer: parsing is
/// deterministic for a fixed grammar, so the tree is a function of the
/// bytes alone.
pub uninterp spec fn parse_of(content: Seq<u8>) -> SyntaxNode;

/// Whether the Topiary formatting pass accepts a buffer, for a given
/// style query and indent string.
pub uninterp spec fn topiary_accepts(query: Seq<char>, indent: Seq<char>, content: Seq<u8>) -> bool;

/// The text the Topiary formatting pass produces for a buffer it
/// accepts: a function of the style query, the indent string and the
/// bytes alone.
pub uninterp spec fn formatted_of(query: Seq<char>, indent: Seq<char>, content: Seq<u8>) -> Seq<u8>;

/// The style query a Topiary language value was built with.
pub uninterp spec fn lang_query(l: topiary_core::Language) -> Seq<char>;

/// The indent string a Topiary language value was built with.
pub uninterp spec fn lang_indent(l: topiary_core::Language) -> Seq<char>;

/// Whether the formatting engine's query compiler accepts a style query
/// text, for the GDScript grammar: a function of the text alone.
pub uninterp spec fn query_compiles(query: Seq<char>) -> bool;

/// Whether a pattern is a well-formed regular expression.
pub uninterp spec fn regex_compiles(pat: Seq<char>, multi_line: bool) -> bool;

/// The non-overlapping matches of a pattern over a buffer, in order,
/// each with the replacement template already expanded against its
/// capture groups: a function of pattern, flag, buffer and template
/// alone.
pub uninterp spec fn regex_matches(
    pat: Seq<char>,
    multi_line: bool,
    content: Seq<u8>,
    rep: Seq<char>,
) -> Seq<Rewrite>;

/// Relies on tree_sitter::Parser::new and Parser::set_language: a parser
/// for the GDScript grammar. Assigning the language fails only on an ABI
/// version outside the library's supported range, and the bundled
/// grammar's version lies inside it, so the parser is always built; the
/// match guard stands against a future version skew.
#[verifier::external_body]
pub fn make_parser() -> (r: Option<tree_sitter::Parser>)
    ensures
        r is Some,
        r matches Some(p) ==> parser_ready(p),
{
    let mut parser = tree_sitter::Parser::new();
    match parser.set_language(&tree_sitter_gdscript::LANGUAGE.into()) {
        Ok(()) => Some(parser),
        Err(_) => None,
    }
}

/// Reads one parsed node and its subtree out into plain values. Relies
/// on tree_sitter::Node's accessors: kind, grammar id, named flag, byte
/// range, point range and children, each copied one for one.
#[verifier::external_body]
fn node_to_model(node: tree_sitter::Node<'_>) -> SyntaxNode {
    let mut cursor = node.walk();
    let mut children = Vec::new();
    for child in node.children(&mut cursor) {
        children.push(node_to_model(child));
    }
    SyntaxNode {
        kind: node.kind().to_string(),
        kind_id: node.grammar_id(),
        named: node.is_named(),
        start_byte: node.start_byte(),
        end_byte: node.end_byte(),
        start_point: Point { row: node.start_position().row, column: node.start_position().column },
        end_point: Point { row: node.end_position().row, column: node.end_position().column },
        children,
    }
}

/// Relies on tree_sitter::Parser::parse: the tree of `content` under the
/// parser's grammar, read out as plain values. Parsing is deterministic,
/// so the tree is the tree of the bytes; parse returns nothing only when
/// the parser has no language assigned, which a ready parser rules out.
#[verifier::external_body]
pub fn parse_to_model(parser: &mut tree_sitter::Parser, content: &Vec<u8>) -> (r: Option<
    SyntaxNode,
>)
    requires
        parser_ready(*old(parser)),
    ensures
        parser_ready(*final(parser)),
        r is Some,
        r matches Some(t) ==> t == parse_of(content@),
{
    let tree = parser.parse(content.as_slice(), None)?;
    Some(node_to_model(tree.root_node()))
}

/// Relies on topiary_core::TopiaryQuery::new and the Language value: a
/// Topiary language for the GDScript grammar, carrying the given style
/// query and indent string, exactly when the query compiles — the one
/// fallible step, deterministic in the query text.
#[verifier::external_body]
pub fn build_language(query: &str, indent: &str) -> (r: Option<topiary_core::Language>)
    ensures
        (r is Some) == query_compiles(query@),
        r matches Some(l) ==> gdscript_language(l) && lang_query(l) == query@ && lang_indent(l)
            == indent@,
{
    let grammar = tree_sitter_gdscript::LANGUAGE.into();
    let formatting_query = topiary_core::TopiaryQuery::new(&grammar, query).ok()?;
    Some(topiary_core::Language {
        name: "gdscript".to_owned(),
        formatting_query,
        injection_query: None,
        grammar,
        indent: Some(indent.to_owned()),
    })
}

/// Relies on topiary_core::formatter_str: the formatted text for the
/// buffer under the language's query and indent, or the engine's error.
/// The result is a function of the query, the indent and the bytes
/// alone; parse errors are tolerated and the idempotence check is left
/// to this library's own safe mode.
#[verifier::external_body]
pub fn topiary_format(language: &topiary_core::Language, content: &Vec<u8>) -> (r: Result<
    Vec<u8>,
    String,
>)
    requires
        gdscript_language(*language),
    ensures
        (r is Ok) == topiary_accepts(lang_query(*language), lang_indent(*language), content@),
        r matches Ok(v) ==> v@ == formatted_of(
            lang_query(*language),
            lang_indent(*language),
            content@,
        ),
{
    let text = core::str::from_utf8(content.as_slice()).map_err(|e| e.to_string())?;
    let mut output: Vec<u8> = Vec::new();
    let operation = topiary_core::Operation::Format {
        skip_idempotence: true,
        tolerate_parsing_errors: true,
        skip_stage: None,
    };
    topiary_core::formatter_str(text, &mut output, language, operation, None).map_err(
        |e| e.to_string(),
    )?;
    Ok(output)
}

/// Relies on regex::bytes::RegexBuilder and Captures: the successive
/// non-overlapping matches of the pattern over the buffer, in order,
/// with byte offsets into the buffer, each match's template expansion
/// beside it; or nothing when the pattern does not compile.
#[verifier::external_body]
pub fn regex_find(pat: &str, multi_line: bool, content: &Vec<u8>, rep: &str) -> (r: Option<
    Vec<Rewrite>,
>)
    ensures
        (r is Some) == regex_compiles(pat@, multi_line),
        r matches Some(ms) ==> ms@ == regex_matches(pat@, multi_line, content@, rep@),
        r matches Some(ms) ==> matches_valid(ms@, content@.len() as int),
{
    let re = regex::bytes::RegexBuilder::new(pat).multi_line(multi_line).build().ok()?;
    let mut ms = Vec::new();
    for caps in re.captures_iter(content.as_slice()) {
        let m = caps.get(0).unwrap();
        let mut text = Vec::new();
        caps.expand(rep.as_bytes(), &mut text);
        ms.push(Rewrite { start: m.start(), end: m.end(), text });
    }
    Some(ms)
}

/// Relies on String::from_utf8: the bytes read back as text exactly when
/// they are valid UTF-8, and the text's encoding is those bytes.
#[verifier::external_body]
pub fn string_from_utf8(v: Vec<u8>) -> (r: Option<String>)
    ensures
        (r is Some) == valid_utf8(v@),
        r matches Some(s) ==> encode_utf8(s@) == v@,
{
    String::from_utf8(v).ok()
}

} // verus!
