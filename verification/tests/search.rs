use std::collections::HashMap;

use openscad_lsp::analysis::open_document;
use openscad_lsp::environment::Environment;
use openscad_lsp::kinds::{Field, NodeKind};
use openscad_lsp::parse_code::ParsedCode;
use openscad_lsp::resolve::{
    find_identities, find_identities_with_cache, IdentityCache, SearchSettings,
};
use openscad_lsp::scan::NameFilter;
use openscad_lsp::server::{Server, ServerArguments};
use openscad_lsp::store::CodeStore;
use openscad_lsp::Position;

fn url_of(name: &str) -> String {
    format!("file:///work/{name}")
}

fn start(depth: usize) -> Server {
    let args = ServerArguments {
        builtin: "".to_owned(),
        depth,
        include_default_params: false,
        indent: "  ".to_owned(),
    };
    Server::new(args, None, "module cube(size, center) {}\n", None).expect("server")
}

fn environment(files: &[(&str, &str)]) -> Environment {
    let known: HashMap<String, String> = files
        .iter()
        .map(|(name, text)| (url_of(name), text.to_string()))
        .collect();
    let mut env = Environment::new();
    for (url, text) in &known {
        for path in ParsedCode::new(text.clone(), url.clone()).links() {
            let target = url_of(path.trim_matches(|c| c == '<' || c == '>'));
            let found = known.contains_key(&target);
            env.add_link(url.clone(), path, found.then_some(target));
        }
        env.add_file(url.clone(), Some(text.clone()));
    }
    env
}

fn identifiers(doc: &ParsedCode, name: &str) -> Vec<usize> {
    (0..doc.tree.len())
        .filter(|k| {
            doc.tree.kind(*k) == NodeKind::Identifier && doc.tree.node_text(&doc.code, *k) == name
        })
        .collect()
}

fn deep_files() -> Vec<(&'static str, &'static str)> {
    vec![
        ("top.scad", "include <lvl1.scad>;\nmodule top_use() { nested(); }\n"),
        ("lvl1.scad", "include <lvl2.scad>;\n"),
        ("lvl2.scad", "include <lvl3.scad>;\n"),
        ("lvl3.scad", "include <lvl4.scad>;\n"),
        ("lvl4.scad", "module nested() {}\n"),
    ]
}

fn nested_found(depth: usize) -> bool {
    let env = environment(&deep_files());
    let mut server = start(depth);
    let top = server.get_code(&env, &url_of("top.scad")).expect("load top.scad");
    let call_node = identifiers(&top, "nested")[0];
    let filter = NameFilter::Named("nested".to_owned());
    let results = server.find_identities(&env, &top, &filter, call_node, false);
    results
        .iter()
        .any(|item| item.url.as_deref() == Some(url_of("lvl4.scad").as_str()))
}

#[test]
fn find_identities_traverses_deep_include_graph() {
    assert!(nested_found(0), "expected nested definition in deepest include");
}

#[test]
fn a_limit_ends_the_search() {
    assert!(nested_found(4));
    assert!(!nested_found(3));
}

#[test]
fn parameter_default_self_reference_resolves_to_outer_variable() {
    let source = "show_ackermann_plate = false;\nmodule upper_chassis(show_ackermann_plate=show_ackermann_plate) {}\n";
    let env = environment(&[("main.scad", source)]);
    let mut server = start(0);
    let doc = server.get_code(&env, &url_of("main.scad")).expect("load test file");

    let mut rhs_node = None;
    let mut outer_var_range = None;
    for node in identifiers(&doc, "show_ackermann_plate") {
        let assignment = doc.tree.parent(node).expect("parent");
        if doc.tree.kind(assignment) != NodeKind::Assignment {
            continue;
        }
        let owner = doc.tree.parent(assignment).expect("owner");
        if doc.tree.child_by_field(assignment, Field::Value) == Some(node)
            && doc.tree.kind(owner) == NodeKind::Parameter
        {
            rhs_node = Some(node);
        }
        if doc.tree.child_by_field(assignment, Field::Name) == Some(node)
            && doc.tree.kind(owner) == NodeKind::VarDeclaration
        {
            outer_var_range = Some(doc.tree.range(assignment));
        }
    }
    let rhs_node = rhs_node.expect("rhs identifier in parameter default");
    let outer_var_range = outer_var_range.expect("outer variable declaration");

    let filter = NameFilter::Named("show_ackermann_plate".to_owned());
    let results = server.find_identities(&env, &doc, &filter, rhs_node, false);

    let first = results.first().expect("definition result");
    assert_eq!(first.url, Some(url_of("main.scad")));
    assert_eq!(first.range, outer_var_range);
}

#[test]
fn later_parameter_default_can_resolve_to_earlier_parameter() {
    let env = environment(&[("main.scad", "module m(a=1, b=a) {}\n")]);
    let mut server = start(0);
    let doc = server.get_code(&env, &url_of("main.scad")).expect("load test file");

    let mut rhs_a_node = None;
    let mut param_a_range = None;
    for node in identifiers(&doc, "a") {
        let assignment = doc.tree.parent(node).expect("parent");
        if doc.tree.kind(assignment) != NodeKind::Assignment {
            continue;
        }
        let name = doc.tree.child_by_field(assignment, Field::Name);
        if doc.tree.child_by_field(assignment, Field::Value) == Some(node)
            && name.is_some_and(|name| doc.tree.node_text(&doc.code, name) == "b")
        {
            rhs_a_node = Some(node);
        }
        let owner = doc.tree.parent(assignment).expect("owner");
        if name == Some(node) && doc.tree.kind(owner) == NodeKind::Parameter {
            param_a_range = Some(doc.tree.range(node));
        }
    }
    let rhs_a_node = rhs_a_node.expect("rhs a in second default parameter");
    let param_a_range = param_a_range.expect("first parameter declaration");

    let filter = NameFilter::Named("a".to_owned());
    let results = server.find_identities(&env, &doc, &filter, rhs_a_node, false);

    let first = results.first().expect("definition result");
    assert_eq!(first.url, Some(url_of("main.scad")));
    assert_eq!(first.range, param_a_range);
}

#[test]
fn files_that_lead_to_each_other_are_searched_once() {
    let env = environment(&[
        ("a.scad", "include <b.scad>;\ninclude <a.scad>;\nx();\n"),
        ("b.scad", "include <a.scad>;\nuse <a.scad>;\n"),
    ]);
    let mut server = start(0);
    let doc = server.get_code(&env, &url_of("a.scad")).expect("load");
    let call = identifiers(&doc, "x")[0];
    let filter = NameFilter::Named("x".to_owned());
    assert!(server.find_identities(&env, &doc, &filter, call, true).is_empty());
}

#[test]
fn hover_shows_the_signature_and_the_comment() {
    let env = environment(&[("main.scad", "// A box.\nmodule box(w, h=2) {}\nbox(1);\n")]);
    let mut server = start(0);
    let shown = server
        .handle_hover(&env, &url_of("main.scad"), Position { line: 2, character: 1 })
        .expect("answer")
        .expect("hover");
    assert!(shown.contains("box(w,h=2)"), "{shown}");
    assert!(shown.contains("A box."), "{shown}");
    let nothing = server
        .handle_hover(&env, &url_of("main.scad"), Position { line: 2, character: 5 })
        .expect("answer");
    assert_eq!(nothing, None);
}

#[test]
fn definitions_lead_to_declarations_and_files() {
    let env = environment(&[
        ("main.scad", "use <lib.scad>\nfoo();\n1;\nuse <absent.scad>\n"),
        ("lib.scad", "\nmodule foo() {}\n"),
    ]);
    let mut server = start(0);
    let mut define = |line: u32, character: u32| {
        server
            .handle_definition(&env, &url_of("main.scad"), Position { line, character })
            .expect("answer")
    };
    let places = define(1, 1).expect("places");
    assert_eq!(places.len(), 1);
    assert_eq!(places[0].url, url_of("lib.scad"));
    assert_eq!(places[0].range.start.line, 1);
    let files = define(0, 8).expect("files");
    assert_eq!(files.len(), 1);
    assert_eq!(files[0].url, url_of("lib.scad"));
    assert_eq!(files[0].range.end, Position { line: 0, character: 0 });
    assert!(define(2, 0).is_none());
    assert!(define(3, 8).is_none());
}

#[test]
fn symbols_are_the_declarations_of_a_file() {
    let env = environment(&[("main.scad", "a = 1;\nmodule m() {}\nfunction f() = 1;\n")]);
    let mut server = start(0);
    let names: Vec<String> = server
        .handle_document_symbols(&env, &url_of("main.scad"))
        .expect("symbols")
        .into_iter()
        .map(|symbol| symbol.name)
        .collect();
    assert_eq!(names, vec!["a", "m", "f"]);
}

fn times_found_beside(others: usize) -> usize {
    let mut files: Vec<(String, String)> =
        (0..others).map(|k| (format!("f{k}.scad"), format!("x{k} = 1;\n"))).collect();
    let includes: String = files.iter().map(|(name, _)| format!("include <{name}>;\n")).collect();
    files.push(("last.scad".to_owned(), "use <main.scad>;\n".to_owned()));
    let main = format!("{includes}include <last.scad>;\nmodule foo() {{}}\nfoo();\n");
    files.push(("main.scad".to_owned(), main));
    let listed: Vec<(&str, &str)> =
        files.iter().map(|(name, text)| (name.as_str(), text.as_str())).collect();
    let env = environment(&listed);
    let mut server = start(0);
    let doc = server.get_code(&env, &url_of("main.scad")).expect("load main.scad");
    let call = identifiers(&doc, "foo")[1];
    let filter = NameFilter::Named("foo".to_owned());
    server.find_identities(&env, &doc, &filter, call, true).len()
}

#[test]
fn a_file_is_searched_once_at_a_time_while_it_is_held() {
    assert_eq!(times_found_beside(3), 1);
    assert_eq!(times_found_beside(1010), 2);
}

#[test]
fn a_search_with_an_empty_cache_finds_what_one_without_finds() {
    let files = [
        ("main.scad", "include <a.scad>;\nuse <b.scad>;\nfoo();\n"),
        ("a.scad", "use <b.scad>;\ninclude <main.scad>;\nmodule foo() {}\n"),
        ("b.scad", "include <a.scad>;\nmodule foo() {}\nmodule bar() {}\n"),
        ("builtin", "module cube() {}\n"),
    ];
    let env = environment(&files);
    let settings = SearchSettings { builtin_url: url_of("builtin"), depth: 0 };
    for (name, findall) in [("foo", false), ("foo", true), ("bar", false), ("none", false)] {
        let filter = NameFilter::Named(name.to_owned());
        let mut plain = CodeStore::new();
        let doc = open_document(&mut plain, &url_of("main.scad"), &env).expect("main.scad");
        let call = identifiers(&doc, "foo")[0];
        let expected = find_identities(&mut plain, &settings, &env, &doc, &filter, call, findall);
        let mut store = CodeStore::new();
        open_document(&mut store, &url_of("main.scad"), &env).expect("main.scad");
        let mut cache = IdentityCache::new();
        let mut borrowed = vec![url_of("main.scad")];
        let found = find_identities_with_cache(
            &mut store,
            &settings,
            &env,
            &doc,
            &filter,
            call,
            findall,
            &mut cache,
            &mut borrowed,
        );
        assert_eq!(format!("{found:?}"), format!("{expected:?}"));
        assert_eq!(found.is_empty(), name == "none");
        assert_eq!(store.keys(), plain.keys());
    }
}
