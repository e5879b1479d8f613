use openscad_lsp::checks::document_diagnostics;
use openscad_lsp::checks::edit_diagnostics;
use openscad_lsp::diagnostic::{Diagnostic, Severity};
use openscad_lsp::environment::Environment;
use openscad_lsp::parse_code::{ParsedCode, TextChange};
use openscad_lsp::{Position, Range};

fn diagnostics_for(source: &str) -> Vec<Diagnostic> {
    let code = ParsedCode::new(source.to_owned(), "file:///test.scad".to_owned());
    document_diagnostics(&code, &Environment::new())
}

fn unused_messages(source: &str) -> Vec<String> {
    diagnostics_for(source)
        .into_iter()
        .filter(|diagnostic| diagnostic.message.starts_with("unused local variable"))
        .map(|diagnostic| diagnostic.message)
        .collect()
}

#[test]
fn reports_unused_module_variable() {
    let messages = unused_messages(
        r#"
module m() {
  used = 1;
  unused = 2;
  echo(used);
}
"#,
    );

    assert_eq!(messages, vec!["unused local variable `unused`"]);
}

#[test]
fn reports_unused_function_let_variable() {
    let messages = unused_messages("function f() = let(used = 1, unused = 2) used;\n");

    assert_eq!(messages, vec!["unused local variable `unused`"]);
}

#[test]
fn ignores_top_level_variables_and_parameters() {
    let messages = unused_messages(
        r#"
top_unused = 1;
let(top_let_unused = 1) cube(1);
module m(unused_param) {
  used = 1;
  echo(used);
}
"#,
    );

    assert!(messages.is_empty());
}

#[test]
fn respects_shadowing_in_nested_assignment_scopes() {
    let messages = unused_messages(
        r#"
module m() {
  x = 1;
  let(x = 2) echo(x);
}
"#,
    );

    assert_eq!(messages, vec!["unused local variable `x`"]);
}

#[test]
fn names_with_an_underscore_are_never_reported() {
    assert!(unused_messages("module m() {\n  _a = 1;\n}\n").is_empty());
    assert_eq!(
        unused_messages("module m() {\n  a = 1;\n}\n"),
        vec!["unused local variable `a`"]
    );
}

#[test]
fn unused_variables_carry_their_range_and_source() {
    let found = diagnostics_for("module m() {\n  a = 1;\n}\n");
    assert_eq!(found.len(), 1);
    assert_eq!(found[0].severity, Severity::Warning);
    assert_eq!(found[0].source.as_deref(), Some("openscad-lsp"));
    assert_eq!(
        found[0].range,
        Range {
            start: Position { line: 1, character: 2 },
            end: Position { line: 1, character: 3 },
        }
    );
}

#[test]
fn broken_code_is_a_syntax_error() {
    let found = diagnostics_for("module m( {\n");
    assert!(found.iter().any(|d| d.severity == Severity::Error));
    assert!(found
        .iter()
        .all(|d| d.message == "syntax error" || d.message.starts_with("missing ")));
}

#[test]
fn missing_symbols_are_named() {
    let messages = |source: &str| -> Vec<String> {
        diagnostics_for(source).into_iter().map(|d| d.message).collect()
    };
    assert_eq!(messages("x = (1;\n"), vec!["missing )"]);
    assert_eq!(messages("x = [1;\n"), vec!["missing ]"]);
    assert_eq!(messages("module m() {\n"), vec!["syntax error"]);
}

#[test]
fn dead_links_are_reported_inside_the_brackets() {
    let found = diagnostics_for("use <nowhere.scad>\n");
    assert_eq!(found.len(), 1);
    assert_eq!(found[0].message, "file not found!");
    assert_eq!(found[0].severity, Severity::Error);
    assert_eq!(
        found[0].range,
        Range {
            start: Position { line: 0, character: 5 },
            end: Position { line: 0, character: 17 },
        }
    );
}

#[test]
fn links_that_lead_somewhere_are_not_reported() {
    let mut env = Environment::new();
    env.add_link(
        "file:///test.scad".to_owned(),
        "<there.scad>".to_owned(),
        Some("file:///there.scad".to_owned()),
    );
    let code = ParsedCode::new("use <there.scad>\n".to_owned(), "file:///test.scad".to_owned());
    assert!(document_diagnostics(&code, &env).is_empty());
}

#[test]
fn an_edit_reports_the_dead_link_it_touched() {
    let code = ParsedCode::new(
        "use <a.scad>\nuse <b.scad>\n".to_owned(),
        "file:///test.scad".to_owned(),
    );
    let at = |line: u32| TextChange {
        range: Some(Range {
            start: Position { line, character: 5 },
            end: Position { line, character: 6 },
        }),
        text: "a".to_owned(),
    };
    let env = Environment::new();
    let found = edit_diagnostics(&code, &env, &vec![at(1)]);
    assert_eq!(found.len(), 1);
    assert_eq!(found[0].range.start, Position { line: 1, character: 5 });
    assert!(edit_diagnostics(&code, &env, &vec![at(0), at(1)]).is_empty());
    let whole = TextChange { range: None, text: "".to_owned() };
    assert!(edit_diagnostics(&code, &env, &vec![whole]).is_empty());
}
