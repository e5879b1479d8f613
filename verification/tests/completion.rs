use openscad_lsp::completion::{
    entry_offer, find_directories, show_files, typed_directory, Completion, CompletionItem,
};
use openscad_lsp::environment::Environment;
use openscad_lsp::response_item::CompletionKind;
use openscad_lsp::server::{Server, ServerArguments};
use openscad_lsp::Position;

const BUNDLED: &str = "module cube(size, center) {}\nmodule union() {}\n";

fn source_and_position(source: &str) -> (String, Position) {
    let marker_start = source.find('$').expect("cursor marker");
    let marker_len = if source[marker_start..].starts_with("$0") {
        2
    } else {
        1
    };
    let before_marker = &source[..marker_start];
    let line = before_marker.bytes().filter(|byte| *byte == b'\n').count() as u32;
    let character = before_marker
        .rsplit_once('\n')
        .map_or(before_marker, |(_, line)| line)
        .chars()
        .count() as u32;
    let mut code = source.to_owned();
    code.replace_range(marker_start..marker_start + marker_len, "");

    (code, Position { line, character })
}

fn completion_at(code: &str, position: Position, include_default_params: bool) -> Completion {
    let args = ServerArguments {
        builtin: "".to_owned(),
        depth: 0,
        include_default_params,
        indent: "  ".to_owned(),
    };
    let mut server = Server::new(args, None, BUNDLED, None).expect("server");
    let mut env = Environment::new();
    env.add_file("file:///work/main.scad".to_owned(), Some(code.to_owned()));
    server
        .handle_completion(&env, "file:///work/main.scad", position)
        .expect("completion result")
}

fn completion_items_at_marker(source: &str) -> Vec<CompletionItem> {
    let (code, position) = source_and_position(source);
    match completion_at(&code, position, false) {
        Completion::Items(items) => items,
        other => panic!("expected items, got {other:?}"),
    }
}

fn completion_labels_at_marker(source: &str) -> Vec<String> {
    completion_items_at_marker(source)
        .into_iter()
        .map(|item| item.label)
        .collect()
}

#[test]
fn completion_in_empty_call_returns_callable_parameters() {
    let labels = completion_labels_at_marker(
        "module assembly(show_pill=true, show_barrel=true, my_param=4) {}\nassembly($);\n",
    );

    assert_eq!(labels, vec!["show_pill", "show_barrel", "my_param"]);
}

#[test]
fn completion_in_call_argument_name_filters_by_prefix() {
    let labels = completion_labels_at_marker(
        "module assembly(show_pill=true, show_barrel=true, my_param=4) {}\nassembly(s$);\n",
    );

    assert_eq!(labels, vec!["show_pill", "show_barrel"]);
}

#[test]
fn completion_in_argument_value_uses_lexical_items() {
    let labels = completion_labels_at_marker(
        "global_value = 1;\nmodule assembly(show_pill=true, show_barrel=true, my_param=4) {}\nassembly(show_barrel=$);\n",
    );

    assert!(labels.contains(&"global_value".to_owned()));
    assert!(labels.contains(&"assembly".to_owned()));
    assert!(!labels.contains(&"show_pill".to_owned()));
    assert!(!labels.contains(&"show_barrel".to_owned()));
}

#[test]
fn completion_in_builtin_call_skips_positional_parameters() {
    let labels = completion_labels_at_marker("cube([10, 20, 5], $);\n");

    assert_eq!(labels, vec!["center"]);
}

#[test]
fn completion_in_parameterless_builtin_call_is_empty() {
    let labels = completion_labels_at_marker("union($0) {}\n");

    assert!(labels.is_empty());
}

#[test]
fn arguments_that_are_named_already_are_not_offered() {
    let labels = completion_labels_at_marker("module m(a, b, c) {}\nm(b=1, $);\n");

    assert_eq!(labels, vec!["a", "c"]);
}

#[test]
fn a_declaration_hides_what_the_language_knows_under_its_name() {
    let (code, position) = source_and_position("module cube(mine) {}\n$\n");
    let items = match completion_at(&code, position, true) {
        Completion::Items(items) => items,
        other => panic!("expected items, got {other:?}"),
    };
    let cubes: Vec<&CompletionItem> = items.iter().filter(|item| item.label == "cube").collect();

    assert_eq!(cubes.len(), 1);
    assert_eq!(cubes[0].detail.as_deref(), Some("cube(mine)"));
    assert!(items.iter().any(|item| item.label == "union"));
}

#[test]
fn items_show_their_kind_and_documentation() {
    let items = completion_items_at_marker("// Boxes.\nmodule box(w, h=2) {}\nx = 1;\n$\n");
    let found = items.iter().find(|item| item.label == "box").expect("box");
    assert_eq!(found.kind, CompletionKind::Module);
    assert_eq!(found.insert_text, "box");
    assert_eq!(found.filter_text, "box");
    assert!(found.documentation.as_ref().expect("documentation").contains("Boxes."));
    let variable = items.iter().find(|item| item.label == "x").expect("x");
    assert_eq!(variable.kind, CompletionKind::Variable);
    assert_eq!(variable.detail, None);
}

#[test]
fn inside_a_path_files_are_offered() {
    let (code, position) = source_and_position("use <li$b.scad>\n");
    match completion_at(&code, position, false) {
        Completion::Files { include_path } => assert_eq!(include_path, "<lib.scad>"),
        other => panic!("expected files, got {other:?}"),
    }
    let offers = show_files(vec!["lib.scad".to_owned()], "<li");
    assert_eq!(offers.len(), 1);
    assert_eq!(offers[0].label, "lib.scad");
    assert_eq!(offers[0].insert_text, "lib.scad");
    assert_eq!(offers[0].filter_text, "<li");
    assert_eq!(offers[0].kind, CompletionKind::File);
}

#[test]
fn no_answer_for_a_document_that_cannot_be_read() {
    let args = ServerArguments {
        builtin: "".to_owned(),
        depth: 0,
        include_default_params: false,
        indent: "  ".to_owned(),
    };
    let mut server = Server::new(args, None, BUNDLED, None).expect("server");
    let env = Environment::new();
    let position = Position { line: 0, character: 0 };
    assert!(server.handle_completion(&env, "file:///absent.scad", position).is_none());
    assert!(server.handle_hover(&env, "file:///absent.scad", position).is_none());
    assert!(server.handle_definition(&env, "file:///absent.scad", position).is_none());
    assert!(server.handle_document_symbols(&env, "file:///absent.scad").is_none());
}

#[test]
fn files_and_directories_are_offered_below_what_was_typed() {
    assert_eq!(typed_directory("<sub/dir/fi>\n"), "sub/dir/");
    assert_eq!(typed_directory("<fi"), "");
    assert_eq!(typed_directory("</"), "/");
    let libraries = vec!["file:///libs/".to_owned()];
    assert_eq!(
        find_directories("file:///w/main.scad", &libraries, "sub/"),
        vec!["file:///w/sub/", "file:///libs/sub/"]
    );
    assert_eq!(
        find_directories("file:///w/main.scad", &libraries, ""),
        vec!["file:///w/", "file:///libs/"]
    );
    assert_eq!(entry_offer("sub/", "x.scad", false).as_deref(), Some("sub/x.scad"));
    assert_eq!(entry_offer("", ".scad", false).as_deref(), Some(".scad"));
    assert_eq!(entry_offer("sub/", "more", true).as_deref(), Some("sub/more/"));
    assert_eq!(entry_offer("sub/", "x.stl", false), None);
    assert_eq!(entry_offer("sub/", "scad", false), None);
}
