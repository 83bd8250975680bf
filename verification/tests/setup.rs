use gdscript_formatter::engine::{build_language, make_parser};
use gdscript_formatter::formatter::{FormatterCache, FormatterConfig, STYLE_QUERY};

#[test]
fn the_grammar_loads_into_a_parser() {
    assert!(make_parser().is_some());
}

#[test]
fn the_default_style_query_compiles() {
    assert!(build_language(STYLE_QUERY, "\t").is_some());
}

#[test]
fn an_empty_style_query_compiles_too() {
    assert!(build_language("", "\t").is_some());
}

#[test]
fn the_cache_builds_with_spaces_or_tabs() {
    let tabs = FormatterConfig { indent_size: 4, use_spaces: false, reorder_code: false, safe: false };
    let spaces = FormatterConfig { indent_size: 2, use_spaces: true, reorder_code: false, safe: false };
    assert!(FormatterCache::new(&tabs).is_some());
    assert!(FormatterCache::new(&spaces).is_some());
}
