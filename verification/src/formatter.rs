//! The pipeline orchestrator: parses the input into a baseline tree,
//! normalises the text before the main formatting pass, runs the
//! external tree-to-text engine, cleans its output with outside-string
//! rewrites and the declaration spacer, and in safe mode verifies
//! against the baseline that the program's structure did not change.

use vstd::prelude::*;
use vstd::slice::slice_to_vec;
use vstd::utf8::{encode_utf8, valid_utf8};

use crate::engine::{build_language, formatted_of, gdscript_language, lang_indent, lang_query,
    make_parser, parse_of, parse_to_model, parser_ready, query_compiles, regex_compiles,
    regex_find, regex_matches, string_from_utf8, topiary_accepts, topiary_format};
use crate::rewrite::{apply_rewrites, edits_for, filter_outside_strings, kept_matches,
    lemma_kept_valid, matches_fit, splice, EditRecord, Rewrite};
use crate::spacer::{apply_points, collect_points, find_points, sort_desc, sort_points,
    spacer_edits, apply_insertions, InsertionPoint};
use crate::tree::{compare_trees, lemma_structural_eq_reflexive, structural_eq, SyntaxNode};

verus! {

/// The default style query handed to the formatting engine: enough of
/// the GDScript shape to keep declarations, bodies and indentation in
/// place. It is this crate's own minimal default, not a full GDScript
/// style file; callers with richer style rules compile their own cache.
pub const STYLE_QUERY: &'static str = "(comment) @leaf\n(string) @leaf\n(body) @prepend_indent_start @append_indent_end\n(body (_) @prepend_hardline)\n(source (_) @prepend_hardline)\n(comment) @prepend_space\n[\"func\" \"var\" \"const\" \"signal\" \"class\" \"extends\" \"class_name\" \"enum\" \"return\"] @append_space\n\"=\" @prepend_space @append_space\n[(variable_statement) (function_definition) (class_definition) (signal_statement) (const_statement) (enum_definition) (constructor_definition) (extends_statement) (class_name_statement) (expression_statement) (pass_statement) (return_statement) (comment) (annotation)] @allow_blank_line_before\n";

/// What a caller may choose: the indentation unit, whether to run the
/// declaration-reordering pass, and whether to verify in safe mode that
/// formatting left the program's structure unchanged.
#[derive(Clone, Copy, PartialEq, Eq, Structural, Debug)]
pub struct FormatterConfig {
    /// Spaces per indentation level, when `use_spaces` is set.
    pub indent_size: usize,
    /// Indent with spaces instead of a single tab.
    pub use_spaces: bool,
    /// Hand the result to the external reordering pass afterwards.
    pub reorder_code: bool,
    /// Verify that the final tree matches the input's tree.
    pub safe: bool,
}

impl Default for FormatterConfig {
    fn default() -> (r: Self)
        ensures
            r == (FormatterConfig {
                indent_size: 4usize,
                use_spaces: false,
                reorder_code: false,
                safe: false,
            }),
    {
        FormatterConfig { indent_size: 4, use_spaces: false, reorder_code: false, safe: false }
    }
}

/// How a formatting request fails.
#[derive(Clone, PartialEq, Eq, Debug)]
pub enum FormatError {
    /// The style query could not be compiled.
    Init,
    /// The formatting engine rejected the input; its own words.
    Formatting(String),
    /// The final text was not valid UTF-8.
    Utf8,
    /// Safe mode found the program's structure changed.
    StructureChanged,
}

impl FormatError {
    /// A short description of the failure.
    pub fn message(&self) -> (r: String) {
        match self {
            FormatError::Init => String::from_str("formatter initialisation failed"),
            FormatError::Formatting(e) => String::from_str("formatting failed: ").concat(
                e.as_str(),
            ),
            FormatError::Utf8 => String::from_str("output is not valid UTF-8"),
            FormatError::StructureChanged => String::from_str(
                "formatting changed the program's structure",
            ),
        }
    }
}

/// The indentation unit of a configuration: the given number of spaces,
/// or one tab.
pub open spec fn indent_spec(config: FormatterConfig) -> Seq<char> {
    if config.use_spaces {
        Seq::new(config.indent_size as nat, |i: int| ' ')
    } else {
        seq!['\t']
    }
}

fn build_indent(config: &FormatterConfig) -> (s: String)
    ensures
        s@ == indent_spec(*config),
{
    if config.use_spaces {
        let mut s = String::new();
        proof {
            reveal_strlit(" ");
        }
        let mut i: usize = 0;
        while i < config.indent_size
            invariant
                i <= config.indent_size,
                s@ =~= Seq::new(i as nat, |k: int| ' '),
            decreases config.indent_size - i,
        {
            s.append(" ");
            proof {
                reveal_strlit(" ");
                assert(s@ =~= Seq::new(i as nat + 1, |k: int| ' '));
            }
            i = i + 1;
        }
        proof {
            assert(s@ =~= indent_spec(*config));
        }
        s
    } else {
        let s = String::from_str("\t");
        proof {
            reveal_strlit("\t");
            assert(s@ =~= indent_spec(*config));
        }
        s
    }
}

/// The process-wide reusable state: the parser for the grammar and the
/// formatting engine's compiled language. Building it is the dominant
/// fixed cost of a request; a long-lived instance pays it once.
pub struct FormatterCache {
    pub parser: tree_sitter::Parser,
    pub language: topiary_core::Language,
}

impl FormatterCache {
    /// The parser is configured for the grammar and the language value
    /// was built for it: what the engine wrappers ask of their inputs.
    pub open spec fn wf(self) -> bool {
        parser_ready(self.parser) && gdscript_language(self.language)
    }

    /// Compiles the grammar and the default style query, with the
    /// configuration's indentation unit.
    pub fn new(config: &FormatterConfig) -> (r: Option<FormatterCache>)
        ensures
            (r is Some) == query_compiles(STYLE_QUERY@),
            r matches Some(c) ==> c.wf() && lang_query(c.language) == STYLE_QUERY@ && lang_indent(
                c.language,
            ) == indent_spec(*config),
    {
        let parser = match make_parser() {
            Some(p) => p,
            None => unreached(),
        };
        let indent = build_indent(config);
        let language = match build_language(STYLE_QUERY, indent.as_str()) {
            Some(l) => l,
            None => {
                return None;
            },
        };
        Some(FormatterCache { parser, language })
    }
}

/// One outside-string rewrite pass over the buffer: the pattern's
/// matches, minus those starting inside string literals, spliced in —
/// skipped entirely when the pattern does not compile or a replacement
/// would overflow the machine's offsets.
pub open spec fn pass_spec(c: Seq<u8>, pat: Seq<char>, ml: bool, rep: Seq<char>) -> Seq<u8> {
    let kept = kept_matches(regex_matches(pat, ml, c, rep), parse_of(c));
    if regex_compiles(pat, ml) && matches_fit(kept, c.len() as int) {
        splice(c, kept, 0)
    } else {
        c
    }
}

/// The edit records one outside-string rewrite pass produces: one per
/// applied match, none when the pass was skipped.
pub open spec fn pass_edits_spec(c: Seq<u8>, pat: Seq<char>, ml: bool, rep: Seq<char>) -> Seq<
    EditRecord,
> {
    let kept = kept_matches(regex_matches(pat, ml, c, rep), parse_of(c));
    if regex_compiles(pat, ml) && matches_fit(kept, c.len() as int) {
        edits_for(c, kept, 0, 0, 0)
    } else {
        Seq::empty()
    }
}

/// Returns true when every replacement keeps offsets within the machine.
fn check_fit(ms: &Vec<Rewrite>, len: usize) -> (r: bool)
    ensures
        r == matches_fit(ms@, len as int),
{
    let mut i: usize = 0;
    while i < ms.len()
        invariant
            i <= ms@.len(),
            forall|k: int|
                0 <= k < i ==> (#[trigger] ms@[k].start + ms@[k].text@.len() <= usize::MAX && len
                    + ms@[k].text@.len() <= usize::MAX),
        decreases ms@.len() - i,
    {
        let tlen = ms[i].text.len();
        if !(tlen <= usize::MAX - ms[i].start && tlen <= usize::MAX - len) {
            return false;
        }
        i = i + 1;
    }
    true
}

/// Returns true if the buffer holds the byte anywhere.
fn contains_byte(c: &Vec<u8>, b: u8) -> (r: bool)
    ensures
        r == c@.contains(b),
{
    let mut i: usize = 0;
    while i < c.len()
        invariant
            i <= c@.len(),
            forall|k: int| 0 <= k < i ==> c@[k] != b,
        decreases c@.len() - i,
    {
        if c[i] == b {
            return true;
        }
        i = i + 1;
    }
    false
}

/// Runs one outside-string rewrite pass: matches the pattern against the
/// unmodified buffer, skips matches starting inside string literals of
/// the buffer's tree, and applies the rest in source order.
fn rewrite_pass(
    parser: &mut tree_sitter::Parser,
    content: Vec<u8>,
    pat: &str,
    ml: bool,
    rep: &str,
) -> (r: (Vec<u8>, Vec<EditRecord>))
    requires
        parser_ready(*old(parser)),
    ensures
        parser_ready(*final(parser)),
        r.0@ == pass_spec(content@, pat@, ml, rep@),
        r.1@ == pass_edits_spec(content@, pat@, ml, rep@),
{
    let ms = match regex_find(pat, ml, &content, rep) {
        None => {
            return (content, Vec::new());
        },
        Some(ms) => ms,
    };
    if ms.len() == 0 {
        proof {
            let kept = kept_matches(ms@, parse_of(content@));
            assert(kept =~= Seq::<Rewrite>::empty());
            assert(splice(content@, kept, 0) =~= content@);
            assert(edits_for(content@, kept, 0, 0, 0) =~= Seq::<EditRecord>::empty());
        }
        return (content, Vec::new());
    }
    let model = match parse_to_model(parser, &content) {
        None => unreached(),
        Some(t) => t,
    };
    let ghost all = ms@;
    let kept = filter_outside_strings(ms, &model);
    proof {
        lemma_kept_valid(all, model, content@.len() as int);
    }
    if check_fit(&kept, content.len()) {
        apply_rewrites(&content, &kept)
    } else {
        (content, Vec::new())
    }
}

/// The declaration spacer's effect on a buffer: the insertion points of
/// its tree, applied from the highest byte offset down.
pub open spec fn spacer_spec(c: Seq<u8>) -> Seq<u8> {
    apply_points(c, sort_desc(collect_points(parse_of(c), c)))
}

/// Runs the declaration spacer over the buffer.
fn spacer_pass(parser: &mut tree_sitter::Parser, content: Vec<u8>) -> (r: (
    Vec<u8>,
    Vec<EditRecord>,
))
    requires
        parser_ready(*old(parser)),
    ensures
        parser_ready(*final(parser)),
        r.0@ == spacer_spec(content@),
        r.1@ == spacer_edits(content@, sort_desc(collect_points(parse_of(content@), content@))),
{
    let model = match parse_to_model(parser, &content) {
        None => unreached(),
        Some(t) => t,
    };
    let mut pts: Vec<InsertionPoint> = Vec::new();
    find_points(&model, &content, &mut pts);
    proof {
        assert(Seq::<InsertionPoint>::empty() + collect_points(model, content@) =~= collect_points(
            model,
            content@,
        ));
    }
    let pts = sort_points(pts);
    let mut content = content;
    let edits = apply_insertions(&mut content, &pts);
    (content, edits)
}

/// The three postprocessing rewrites and the spacer, in their fixed
/// order: dangling semicolons (probed cheaply first), dangling commas,
/// disallowed trailing commas in preload calls, then the blank lines
/// between declarations.
pub open spec fn postprocess_spec(c: Seq<u8>) -> Seq<u8> {
    let c1 = if c.contains(59u8) {
        pass_spec(c, "(\\s*;)+$"@, true, ""@)
    } else {
        c
    };
    let c2 = pass_spec(c1, "([^\\n\\r])\\n\\s+,"@, true, "$1,"@);
    let c3 = pass_spec(c2, "preload\\s*\\(([^)]*),(\\s*)\\)"@, false, "preload($1$2)"@);
    spacer_spec(c3)
}

/// The normalisation before the engine runs: stray blank lines after an
/// extends header are removed.
pub open spec fn preprocess_spec(c: Seq<u8>) -> Seq<u8> {
    pass_spec(
        c,
        "(?P<extends_line>^[^#\\n]*extends )(?P<extends_name>([a-zA-Z0-9]+|\".*?\"))\\n(\\n*)"@,
        true,
        "$extends_line$extends_name\n"@,
    )
}

/// The whole pipeline's text transformation: preprocessing, the
/// formatting engine, postprocessing.
pub open spec fn pipeline_spec(query: Seq<char>, indent: Seq<char>, c: Seq<u8>) -> Seq<u8> {
    postprocess_spec(formatted_of(query, indent, preprocess_spec(c)))
}

/// A formatting request's owner: the one holder of the buffer and its
/// trees while the stages run, around a reusable cache.
pub struct Formatter<'a> {
    pub config: &'a FormatterConfig,
    /// The buffer of the request being processed; cleared when the
    /// result is taken.
    pub content: Vec<u8>,
    /// The unmutated tree of the original input, kept for safe mode.
    pub baseline: Option<SyntaxNode>,
    pub cache: Option<FormatterCache>,
}

impl<'a> Formatter<'a> {
    /// The cache, when there is one, is well-formed and a baseline tree
    /// is held: constructors establish this and every method preserves
    /// it.
    pub open spec fn wf(self) -> bool {
        self.cache matches Some(c) ==> c.wf() && self.baseline is Some
    }

    /// A fresh formatter around a newly built cache; the baseline is the
    /// empty buffer's tree.
    pub fn new(config: &'a FormatterConfig) -> (r: Formatter<'a>)
        ensures
            r.wf(),
            r.config == config,
            r.content@.len() == 0,
            (r.cache is Some) == query_compiles(STYLE_QUERY@),
            r.cache matches Some(c) ==> lang_query(c.language) == STYLE_QUERY@ && lang_indent(
                c.language,
            ) == indent_spec(*config),
            r.cache is Some ==> r.baseline == Some(parse_of(Seq::<u8>::empty())),
    {
        let mut cache = FormatterCache::new(config);
        let baseline = match &mut cache {
            Some(c) => parse_to_model(&mut c.parser, &Vec::new()),
            None => None,
        };
        Formatter { config, content: Vec::new(), baseline, cache }
    }

    /// Formats one request: parses the baseline, normalises, runs the
    /// engine, cleans up its output, and finishes — in safe mode that
    /// verifies the structure against the baseline. The buffer is
    /// cleared when the result is taken, so a long-lived instance starts
    /// the next request from a clean slate; the cache, and with it the
    /// pipeline every request runs, is preserved.
    pub fn format(&mut self, content: String) -> (r: Result<String, FormatError>)
        requires
            old(self).wf(),
        ensures
            final(self).wf(),
            final(self).config == old(self).config,
            (final(self).cache is Some) == (old(self).cache is Some),
            old(self).cache matches Some(c1) ==> (final(self).cache matches Some(c2) && c2.language
                == c1.language),
            (r == Err::<String, FormatError>(FormatError::Init)) <==> old(self).cache is None,
            r matches Ok(s) ==> (old(self).cache matches Some(cache) && {
                let q = lang_query(cache.language);
                let ind = lang_indent(cache.language);
                let input = encode_utf8(content@);
                let out = pipeline_spec(q, ind, input);
                &&& topiary_accepts(q, ind, preprocess_spec(input))
                &&& valid_utf8(out)
                &&& encode_utf8(s@) == out
                &&& (old(self).config.safe ==> structural_eq(parse_of(input), parse_of(out)))
            }),
            r matches Ok(_) ==> final(self).content@.len() == 0,
            (r matches Err(FormatError::Formatting(_))) <==> ({
                &&& old(self).cache matches Some(cache)
                &&& !topiary_accepts(
                    lang_query(cache.language),
                    lang_indent(cache.language),
                    preprocess_spec(encode_utf8(content@)),
                )
            }),
            (r == Err::<String, FormatError>(FormatError::StructureChanged)) <==> ({
                let input = encode_utf8(content@);
                &&& old(self).cache matches Some(cache) && ({
                    let q = lang_query(cache.language);
                    let ind = lang_indent(cache.language);
                    &&& topiary_accepts(q, ind, preprocess_spec(input))
                    &&& old(self).config.safe
                    &&& !structural_eq(parse_of(input), parse_of(pipeline_spec(q, ind, input)))
                })
            }),
            (r == Err::<String, FormatError>(FormatError::Utf8)) <==> ({
                let input = encode_utf8(content@);
                &&& old(self).cache matches Some(cache) && ({
                    let q = lang_query(cache.language);
                    let ind = lang_indent(cache.language);
                    let out = pipeline_spec(q, ind, input);
                    &&& topiary_accepts(q, ind, preprocess_spec(input))
                    &&& (old(self).config.safe ==> structural_eq(parse_of(input), parse_of(out)))
                    &&& !valid_utf8(out)
                })
            }),
            (r is Ok) <==> ({
                let input = encode_utf8(content@);
                &&& old(self).cache matches Some(cache) && ({
                    let q = lang_query(cache.language);
                    let ind = lang_indent(cache.language);
                    let out = pipeline_spec(q, ind, input);
                    &&& topiary_accepts(q, ind, preprocess_spec(input))
                    &&& (old(self).config.safe ==> structural_eq(parse_of(input), parse_of(out)))
                    &&& valid_utf8(out)
                })
            }),
    {
        let input = str_bytes(content.as_str());
        let baseline;
        let c2;
        let c5;
        {
            let cache = match &mut self.cache {
                None => {
                    return Err(FormatError::Init);
                },
                Some(c) => c,
            };
            baseline = match parse_to_model(&mut cache.parser, &input) {
                None => unreached(),
                Some(t) => t,
            };
            let c1 = rewrite_pass(
                &mut cache.parser,
                input,
                "(?P<extends_line>^[^#\\n]*extends )(?P<extends_name>([a-zA-Z0-9]+|\".*?\"))\\n(\\n*)",
                true,
                "$extends_line$extends_name\n",
            ).0;
            c2 = match topiary_format(&cache.language, &c1) {
                Ok(v) => v,
                Err(e) => {
                    return Err(FormatError::Formatting(e));
                },
            };
            let c3 = if contains_byte(&c2, 59u8) {
                rewrite_pass(&mut cache.parser, c2, "(\\s*;)+$", true, "").0
            } else {
                c2
            };
            let c4 = rewrite_pass(&mut cache.parser, c3, "([^\\n\\r])\\n\\s+,", true, "$1,").0;
            c5 = rewrite_pass(
                &mut cache.parser,
                c4,
                "preload\\s*\\(([^)]*),(\\s*)\\)",
                false,
                "preload($1$2)",
            ).0;
        }
        let c6 = {
            let cache = match &mut self.cache {
                None => unreached(),
                Some(c) => c,
            };
            spacer_pass(&mut cache.parser, c5).0
        };
        self.content = c6;
        self.baseline = Some(baseline);
        self.finish()
    }

    /// Finishes the request: in safe mode the final text is reparsed and
    /// compared structurally against the baseline, and a mismatch is the
    /// structural-safety error, distinct from every formatting failure.
    /// On success the buffer is taken and the formatter is left clean
    /// for the next request.
    pub fn finish(&mut self) -> (r: Result<String, FormatError>)
        requires
            old(self).wf(),
        ensures
            final(self).wf(),
            final(self).config == old(self).config,
            (final(self).cache is Some) == (old(self).cache is Some),
            old(self).cache matches Some(c1) ==> (final(self).cache matches Some(c2) && c2.language
                == c1.language),
            (r == Err::<String, FormatError>(FormatError::Init)) <==> old(self).cache is None,
            !(r matches Err(FormatError::Formatting(_))),
            r matches Ok(s) ==> {
                &&& encode_utf8(s@) == old(self).content@
                &&& final(self).content@.len() == 0
            },
            (r == Err::<String, FormatError>(FormatError::StructureChanged)) <==> ({
                &&& old(self).cache is Some
                &&& old(self).config.safe
                &&& old(self).baseline matches Some(b) && !structural_eq(
                    b,
                    parse_of(old(self).content@),
                )
            }),
            (r == Err::<String, FormatError>(FormatError::Utf8)) <==> ({
                &&& old(self).cache is Some
                &&& (old(self).config.safe ==> (old(self).baseline matches Some(b)
                    && structural_eq(b, parse_of(old(self).content@))))
                &&& !valid_utf8(old(self).content@)
            }),
            (r is Ok) <==> ({
                &&& old(self).cache is Some
                &&& (old(self).config.safe ==> (old(self).baseline matches Some(b)
                    && structural_eq(b, parse_of(old(self).content@))))
                &&& valid_utf8(old(self).content@)
            }),
    {
        let cache = match &mut self.cache {
            None => {
                return Err(FormatError::Init);
            },
            Some(c) => c,
        };
        if self.config.safe {
            let fin = match parse_to_model(&mut cache.parser, &self.content) {
                None => unreached(),
                Some(t) => t,
            };
            let base = match &self.baseline {
                None => unreached(),
                Some(b) => b,
            };
            if !compare_trees(base, &fin) {
                return Err(FormatError::StructureChanged);
            }
        }
        let mut out: Vec<u8> = Vec::new();
        core::mem::swap(&mut out, &mut self.content);
        match string_from_utf8(out) {
            None => Err(FormatError::Utf8),
            Some(s) => Ok(s),
        }
    }

    /// Runs only the postprocessing half of the pipeline over a text:
    /// the three outside-string rewrites and the declaration spacer.
    pub fn postprocess_text(&mut self, content: String) -> (r: Result<String, FormatError>)
        requires
            old(self).wf(),
        ensures
            final(self).wf(),
            final(self).config == old(self).config,
            (final(self).cache is Some) == (old(self).cache is Some),
            old(self).cache matches Some(c1) ==> (final(self).cache matches Some(c2) && c2.language
                == c1.language),
            (r == Err::<String, FormatError>(FormatError::Init)) <==> old(self).cache is None,
            r matches Ok(s) ==> encode_utf8(s@) == postprocess_spec(encode_utf8(content@)),
            (r is Ok) <==> (old(self).cache is Some && valid_utf8(
                postprocess_spec(encode_utf8(content@)),
            )),
            (r == Err::<String, FormatError>(FormatError::Utf8)) <==> (old(self).cache is Some
                && !valid_utf8(postprocess_spec(encode_utf8(content@)))),
    {
        let input = str_bytes(content.as_str());
        let cache = match &mut self.cache {
            None => {
                return Err(FormatError::Init);
            },
            Some(c) => c,
        };
        let c3 = if contains_byte(&input, 59u8) {
            rewrite_pass(&mut cache.parser, input, "(\\s*;)+$", true, "").0
        } else {
            input
        };
        let c4 = rewrite_pass(&mut cache.parser, c3, "([^\\n\\r])\\n\\s+,", true, "$1,").0;
        let c5 = rewrite_pass(
            &mut cache.parser,
            c4,
            "preload\\s*\\(([^)]*),(\\s*)\\)",
            false,
            "preload($1$2)",
        ).0;
        let c6 = spacer_pass(&mut cache.parser, c5).0;
        match string_from_utf8(c6) {
            None => Err(FormatError::Utf8),
            Some(s) => Ok(s),
        }
    }
}

/// Reads a text's bytes into an owned buffer.
fn str_bytes(s: &str) -> (r: Vec<u8>)
    ensures
        r@ == encode_utf8(s@),
{
    slice_to_vec(s.as_bytes())
}

/// The reorder pass is an external collaborator with a recoverable
/// contract: a reordering that arrived replaces the text; a failure
/// keeps the pre-reorder text and is carried beside it as a warning,
/// never silently swallowed and never fatal.
pub fn resolve_reorder(current: String, outcome: Result<String, String>) -> (r: (
    String,
    Option<String>,
))
    ensures
        outcome matches Ok(t) ==> r.0 == t && r.1 is None,
        outcome matches Err(e) ==> r.0 == current && r.1 == Some(e),
{
    match outcome {
        Ok(t) => (t, None),
        Err(e) => (current, Some(e)),
    }
}

/// Formats GDScript source text with the default configuration.
pub fn format_gdscript(content: &str) -> (r: Result<String, FormatError>)
    ensures
        ({
            let input = encode_utf8(content@);
            let ind = indent_spec(FormatterConfig {
                indent_size: 4usize,
                use_spaces: false,
                reorder_code: false,
                safe: false,
            });
            let out = pipeline_spec(STYLE_QUERY@, ind, input);
            &&& (r matches Ok(s) ==> encode_utf8(s@) == out)
            &&& ((r is Ok) <==> (query_compiles(STYLE_QUERY@) && topiary_accepts(
                STYLE_QUERY@,
                ind,
                preprocess_spec(input),
            ) && valid_utf8(out)))
        }),
{
    let config = FormatterConfig { indent_size: 4, use_spaces: false, reorder_code: false, safe: false };
    format_gdscript_with_config(content, &config)
}

/// Formats GDScript source text with the given configuration.
pub fn format_gdscript_with_config(content: &str, config: &FormatterConfig) -> (r: Result<
    String,
    FormatError,
>)
    ensures
        r matches Ok(s) ==> {
            let input = encode_utf8(content@);
            let out = pipeline_spec(STYLE_QUERY@, indent_spec(*config), input);
            &&& encode_utf8(s@) == out
            &&& (config.safe ==> structural_eq(parse_of(input), parse_of(out)))
        },
        (r == Err::<String, FormatError>(FormatError::Init)) <==> !query_compiles(STYLE_QUERY@),
        (r matches Err(FormatError::Formatting(_))) <==> (query_compiles(STYLE_QUERY@)
            && !topiary_accepts(
            STYLE_QUERY@,
            indent_spec(*config),
            preprocess_spec(encode_utf8(content@)),
        )),
        (r == Err::<String, FormatError>(FormatError::StructureChanged)) <==> ({
            let input = encode_utf8(content@);
            let out = pipeline_spec(STYLE_QUERY@, indent_spec(*config), input);
            &&& query_compiles(STYLE_QUERY@)
            &&& topiary_accepts(STYLE_QUERY@, indent_spec(*config), preprocess_spec(input))
            &&& config.safe
            &&& !structural_eq(parse_of(input), parse_of(out))
        }),
        (r == Err::<String, FormatError>(FormatError::Utf8)) <==> ({
            let input = encode_utf8(content@);
            let out = pipeline_spec(STYLE_QUERY@, indent_spec(*config), input);
            &&& query_compiles(STYLE_QUERY@)
            &&& topiary_accepts(STYLE_QUERY@, indent_spec(*config), preprocess_spec(input))
            &&& (config.safe ==> structural_eq(parse_of(input), parse_of(out)))
            &&& !valid_utf8(out)
        }),
        (r is Ok) <==> ({
            let input = encode_utf8(content@);
            let out = pipeline_spec(STYLE_QUERY@, indent_spec(*config), input);
            &&& query_compiles(STYLE_QUERY@)
            &&& topiary_accepts(STYLE_QUERY@, indent_spec(*config), preprocess_spec(input))
            &&& (config.safe ==> structural_eq(parse_of(input), parse_of(out)))
            &&& valid_utf8(out)
        }),
{
    let mut formatter = Formatter::new(config);
    formatter.format(String::from_str(content))
}

/// Safe-mode idempotence: when the pipeline's text transformation has a
/// fixed point — running it over its own output reproduces that output —
/// the structural comparison of the second run succeeds, since a buffer
/// always parses to a tree structurally identical to itself.
pub proof fn lemma_safe_mode_idempotent(query: Seq<char>, indent: Seq<char>, out1: Seq<u8>)
    requires
        pipeline_spec(query, indent, out1) == out1,
    ensures
        structural_eq(parse_of(out1), parse_of(pipeline_spec(query, indent, out1))),
{
    lemma_structural_eq_reflexive(parse_of(out1));
}

} // verus!
