use gdscript_formatter::formatter::{
    format_gdscript, format_gdscript_with_config, resolve_reorder, FormatError, Formatter,
    FormatterConfig,
};

fn default_config() -> FormatterConfig {
    FormatterConfig { indent_size: 4, use_spaces: false, reorder_code: false, safe: false }
}

#[test]
fn dangling_semicolon_is_removed_by_postprocessing() {
    let config = default_config();
    let mut formatter = Formatter::new(&config);
    let out = formatter.postprocess_text("func foo():\n\tpass;\n".to_string()).unwrap();
    assert_eq!(out, "func foo():\n\tpass\n");
}

#[test]
fn dangling_semicolon_is_removed_end_to_end() {
    let out = format_gdscript("func foo():\n\tpass;\n").unwrap();
    assert!(out.contains("pass"));
    assert!(!out.contains(';'));
}

#[test]
fn semicolon_inside_a_string_survives_postprocessing() {
    let config = default_config();
    let mut formatter = Formatter::new(&config);
    let input = "var s = \"\"\"one;\ntwo\"\"\"\n".to_string();
    let out = formatter.postprocess_text(input.clone()).unwrap();
    assert!(out.contains("one;\ntwo"));
}

#[test]
fn adjacent_functions_gain_exactly_one_blank_line() {
    let config = default_config();
    let mut formatter = Formatter::new(&config);
    let out = formatter
        .postprocess_text("func a():\n\tpass\nfunc b():\n\tpass\n".to_string())
        .unwrap();
    assert_eq!(out, "func a():\n\tpass\n\nfunc b():\n\tpass\n");
}

#[test]
fn an_existing_blank_line_is_not_doubled() {
    let config = default_config();
    let mut formatter = Formatter::new(&config);
    let input = "func a():\n\tpass\n\nfunc b():\n\tpass\n".to_string();
    let out = formatter.postprocess_text(input.clone()).unwrap();
    assert_eq!(out, input);
}

#[test]
fn postprocessing_is_idempotent_on_its_own_output() {
    let config = default_config();
    let mut formatter = Formatter::new(&config);
    let first = formatter
        .postprocess_text("func a():\n\tpass;\nfunc b():\n\tpass\n".to_string())
        .unwrap();
    let second = formatter.postprocess_text(first.clone()).unwrap();
    assert_eq!(first, second);
}

#[test]
fn safe_mode_accepts_a_formatting_fixed_point() {
    let config = FormatterConfig { indent_size: 4, use_spaces: false, reorder_code: false, safe: true };
    let first = match format_gdscript_with_config("func foo():\n\tpass\n", &default_config()) {
        Ok(s) => s,
        Err(e) => panic!("first run failed: {:?}", e),
    };
    let second = format_gdscript_with_config(&first, &config).unwrap();
    assert_eq!(first, second);
}

#[test]
fn the_engine_normalises_spacing() {
    let out = format_gdscript("func  foo( ):\n\tpass\n").unwrap();
    assert_eq!(out, "func foo():\n\tpass\n");
}

#[test]
fn spaces_configuration_reindents_the_body() {
    let config = FormatterConfig { indent_size: 2, use_spaces: true, reorder_code: false, safe: false };
    let out = format_gdscript_with_config("func foo():\n\tpass\n", &config).unwrap();
    assert_eq!(out, "func foo():\n  pass\n");
}

#[test]
fn safe_mode_reports_a_structural_change_distinctly() {
    let config = FormatterConfig { indent_size: 4, use_spaces: false, reorder_code: false, safe: true };
    // removing the dangling semicolon removes a node from the tree, and the
    // comparator deliberately treats any change in shape as unsafe
    let r = format_gdscript_with_config("func foo():\n\tpass;\n", &config);
    assert_eq!(r, Err(FormatError::StructureChanged));
}

#[test]
fn reorder_success_replaces_the_text() {
    let (text, warning) = resolve_reorder("before".to_string(), Ok("after".to_string()));
    assert_eq!(text, "after");
    assert!(warning.is_none());
}

#[test]
fn reorder_failure_keeps_the_text_and_carries_a_warning() {
    let (text, warning) =
        resolve_reorder("before".to_string(), Err("reorder exploded".to_string()));
    assert_eq!(text, "before");
    assert_eq!(warning.unwrap(), "reorder exploded");
}
