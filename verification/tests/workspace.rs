use std::collections::HashMap;

use lsp_types::notification::{DidChangeWatchedFiles, Notification};
use lsp_types::request::{RegisterCapability, Request};
use openscad_lsp::environment::Environment;
use openscad_lsp::gather::{Gathering, Lookup};
use openscad_lsp::kinds::NodeKind;
use openscad_lsp::navigation::TextEdit;
use openscad_lsp::parse_code::TextChange;
use openscad_lsp::rename::{RenameLookup, RenameReply};
use openscad_lsp::roots::{extract_workspace_roots, Root};
use openscad_lsp::server::{
    Configuration, FileChange, ResponseId, ResponseOutcome, Server, ServerArguments,
};
use openscad_lsp::symbols::ResolvedSymbol;
use openscad_lsp::{Position, Range};
use tempfile::tempdir;

/// Files by name, as if they were in one directory.
struct World {
    files: HashMap<String, String>,
    server: Server,
}

fn url_of(name: &str) -> String {
    format!("file:///work/{name}")
}

impl World {
    fn new(files: &[(&str, &str)]) -> World {
        let args = ServerArguments {
            builtin: "".to_owned(),
            depth: 0,
            include_default_params: false,
            indent: "  ".to_owned(),
        };
        let bundled = "module cube(size, center) {}\n";
        World {
            files: files
                .iter()
                .map(|(name, text)| (url_of(name), text.to_string()))
                .collect(),
            server: Server::new(args, None, bundled, None).expect("server"),
        }
    }

    fn write(&mut self, name: &str, text: &str) {
        self.files.insert(url_of(name), text.to_owned());
    }

    fn env(&self) -> Environment {
        let mut gathering = self.server.gather(&self.scanned(), &vec![]);
        loop {
            match gathering.next() {
                Lookup::Read { url } => {
                    let text = self.files.get(&url).cloned();
                    gathering.give_text(url, text);
                }
                Lookup::Resolve { url, path, candidates } => {
                    let target = candidates
                        .into_iter()
                        .find(|target| self.files.contains_key(target));
                    gathering.give_link(url, path, target);
                }
                Lookup::Done => return gathering.finish(),
            }
        }
    }

    fn scanned(&self) -> Vec<String> {
        self.files.keys().cloned().collect()
    }

    fn ensure_workspace_index(&mut self) {
        let env = self.env();
        self.server.ensure_workspace_index(&env, self.scanned());
    }

    fn nth_identifier(&mut self, name: &str, identifier: &str, nth: usize) -> Range {
        let env = self.env();
        let doc = self.server.get_code(&env, &url_of(name)).expect("load file");
        let mut seen = 0;
        for k in 0..doc.tree.len() {
            if doc.tree.kind(k) != NodeKind::Identifier
                || doc.tree.node_text(&doc.code, k) != identifier
            {
                continue;
            }
            if seen == nth {
                return doc.tree.range(k);
            }
            seen += 1;
        }
        panic!("identifier {identifier} occurrence {nth} not found");
    }

    fn rename_changes(
        &mut self,
        name: &str,
        position: Position,
        new_name: &str,
    ) -> HashMap<String, Vec<TextEdit>> {
        let env = self.env();
        let scanned = self.scanned();
        let symbol = match self
            .server
            .lookup_rename_symbol(&env, &url_of(name), position, scanned)
        {
            Some(RenameLookup::Workspace { symbol, .. }) => symbol,
            Some(_) => panic!("expected workspace symbol"),
            None => panic!("lookup failed"),
        };
        self.server
            .build_rename_workspace_edit(&symbol, new_name)
            .expect("workspace edit")
            .into_iter()
            .map(|file| (file.url, file.edits))
            .collect()
    }

    fn rename(&mut self, name: &str, position: Position, new_name: &str) -> Option<RenameReply> {
        let env = self.env();
        let scanned = self.scanned();
        self.server
            .handle_rename(&env, &url_of(name), position, new_name, scanned)
    }

    fn changed(&mut self, name: &str, change: FileChange) {
        let env = self.env();
        let scanned = self.scanned();
        self.server
            .handle_did_change_watched_files(&env, vec![(url_of(name), change)], scanned);
    }
}

fn reads(mut gathering: Gathering) -> Vec<String> {
    let mut read = vec![];
    loop {
        match gathering.next() {
            Lookup::Read { url } => {
                read.push(url.clone());
                gathering.give_text(url, Some("x = 1;\n".to_owned()));
            }
            Lookup::Resolve { url, path, .. } => gathering.give_link(url, path, None),
            Lookup::Done => return read,
        }
    }
}

fn edits_in(changes: &HashMap<String, Vec<TextEdit>>, name: &str) -> Option<usize> {
    changes.get(&url_of(name)).map(Vec::len)
}

fn failure(reply: Option<RenameReply>) -> (i32, String) {
    match reply {
        Some(RenameReply::Failure(error)) => (error.code, error.message),
        other => panic!("expected failure, got {other:?}"),
    }
}

#[test]
fn initialized_registers_workspace_watchers() {
    let tmp = tempdir().unwrap();
    let root = tmp.path();
    let mut server = World::new(&[]).server;
    server.set_workspace_roots(vec![Root::at_path(root.to_str().unwrap().to_owned())]);

    server.configure_client_capabilities(Some(true), Some(true));

    let request = server.handle_initialized().expect("registration request");
    assert_eq!(request.method, RegisterCapability::METHOD);
    assert_eq!(request.registration_method, DidChangeWatchedFiles::METHOD);
    assert_eq!(request.registration_id, "openscad-lsp-watch-scad");
    assert_eq!(request.watchers.len(), 1);
    let base = request.watchers[0].base_url.as_ref().expect("relative pattern");
    assert!(base.starts_with("file://") && base.ends_with('/'));
    assert_eq!(request.watchers[0].pattern, "**/*.scad");
}

#[test]
fn each_root_is_watched_at_its_own_address() {
    let mut server = World::new(&[]).server;
    server.set_workspace_roots(extract_workspace_roots(
        Some("file:///w/p".to_owned()),
        None,
        vec![
            "file:///w/p/".to_owned(),
            "file:///a%20b/%C3%A4%25".to_owned(),
            "file:///w/%FF?x".to_owned(),
            "file:///".to_owned(),
        ],
    ));
    server.configure_client_capabilities(Some(true), Some(true));
    let request = server.handle_initialized().expect("registration request");
    let bases: Vec<Option<&str>> =
        request.watchers.iter().map(|watcher| watcher.base_url.as_deref()).collect();
    assert_eq!(
        bases,
        vec![
            Some("file:///w/p/"),
            Some("file:///a%20b/%C3%A4%25/"),
            Some("file:///w/%FF/"),
            Some("file:///")
        ]
    );
}

#[test]
fn saving_changes_nothing() {
    let mut world = World::new(&[("a.scad", "x = 1;\n")]);
    world.ensure_workspace_index();
    let held = world.server.held_documents();
    world.server.handle_did_save_text_document();
    assert_eq!(world.server.held_documents(), held);
}

#[test]
fn only_files_of_the_language_are_read_when_they_change() {
    let names = ["a.scad", "b%20c.SCAD", "%FF.scad", "%FF.txt", "%FF%2Escad.txt", "d.txt", "C:"];
    let files: Vec<(&str, &str)> = names.iter().map(|name| (*name, "x = 1;\n")).collect();
    let mut world = World::new(&files);
    for name in names {
        let env = world.env();
        let changes = vec![(url_of(name), FileChange::Created)];
        world.server.handle_did_change_watched_files(&env, changes, vec![]);
    }
    let held = world.server.held_documents();
    let read: Vec<&str> =
        names.into_iter().filter(|name| held.contains(&url_of(name))).collect();
    assert_eq!(read, vec!["a.scad", "b%20c.SCAD", "%FF.scad"]);
}

#[test]
fn documents_that_may_be_dropped_are_read_again() {
    let texts: Vec<(String, String)> =
        (0..1200).map(|k| (format!("f{k}.scad"), format!("x{k} = 1;\n"))).collect();
    let files: Vec<(&str, &str)> =
        texts.iter().map(|(name, text)| (name.as_str(), text.as_str())).collect();
    let mut world = World::new(&files[..1]);
    world.ensure_workspace_index();
    let first = world.server.gather(&vec![], &vec![]);
    assert_eq!(reads(first), Vec::<String>::new());
    let needed: Vec<String> = files[1..].iter().map(|(name, _)| url_of(name)).collect();
    let read = reads(world.server.gather(&vec![], &needed));
    assert!(read.contains(&url_of("f0.scad")));
    assert_eq!(read.len(), 1199 + world.server.held_documents().len());
}

#[test]
fn watchers_are_asked_for_once_and_only_where_the_client_lets_it() {
    let mut server = World::new(&[]).server;
    assert!(server.handle_initialized().is_none());

    server.configure_client_capabilities(Some(true), None);
    let request = server.handle_initialized().expect("registration request");
    assert_eq!(request.id, 1);
    assert_eq!(request.watchers.len(), 1);
    assert_eq!(request.watchers[0].base_url, None);
    assert!(server.watched_files_registration_pending());
    assert!(server.handle_initialized().is_none());

    let other = ResponseId::Text("1".to_owned());
    assert_eq!(server.handle_client_response(other, false), ResponseOutcome::Unknown);
    assert_eq!(
        server.handle_client_response(ResponseId::Number(7), false),
        ResponseOutcome::Unknown
    );
    assert_eq!(
        server.handle_client_response(ResponseId::Number(1), true),
        ResponseOutcome::Refused
    );
    assert!(!server.watched_files_registered());

    let again = server.handle_initialized().expect("registration request");
    assert_eq!(again.id, 2);
    assert_eq!(
        server.handle_client_response(ResponseId::Number(2), false),
        ResponseOutcome::Registered
    );
    assert!(server.watched_files_registered());
    assert!(server.handle_initialized().is_none());
}

#[test]
fn a_relative_pattern_needs_a_root_with_an_address() {
    let mut server = World::new(&[]).server;
    server.configure_client_capabilities(Some(true), Some(true));
    assert!(server.register_watchers(vec![None]).is_none());
    let request = server
        .register_watchers(vec![None, Some("file:///work/".to_owned())])
        .expect("registration request");
    assert_eq!(request.watchers.len(), 1);
    assert_eq!(request.watchers[0].base_url.as_deref(), Some("file:///work/"));
}

#[test]
fn watched_file_change_refreshes_closed_document_index() {
    let mut world = World::new(&[
        ("lib.scad", "module foo() {}\n"),
        ("main.scad", "include <lib.scad>;\nfoo();\n"),
    ]);
    world.ensure_workspace_index();

    world.write("main.scad", "include <lib.scad>;\nfoo();\nfoo();\n");
    world.changed("main.scad", FileChange::Changed);

    let foo_range = world.nth_identifier("lib.scad", "foo", 0);
    let symbol = match world.server.symbol_at(&url_of("lib.scad"), &foo_range) {
        Some(ResolvedSymbol::Workspace(symbol)) => symbol,
        result => panic!("expected workspace symbol, got {result:?}"),
    };

    let refs = world.server.references_for(&symbol);
    let main_refs = refs
        .iter()
        .filter(|occurrence| occurrence.url == url_of("main.scad"))
        .count();
    assert_eq!(main_refs, 2);
}

#[test]
fn watched_file_create_rebuilds_missing_dependency_edges() {
    let mut world = World::new(&[("main.scad", "include <lib.scad>;\nfoo();\n")]);
    world.ensure_workspace_index();

    world.write("lib.scad", "module foo() {}\n");
    world.changed("lib.scad", FileChange::Created);

    let foo_range = world.nth_identifier("lib.scad", "foo", 0);
    let symbol = match world.server.symbol_at(&url_of("lib.scad"), &foo_range) {
        Some(ResolvedSymbol::Workspace(symbol)) => symbol,
        result => panic!("expected workspace symbol, got {result:?}"),
    };

    let refs = world.server.references_for(&symbol);
    let main_refs = refs
        .iter()
        .filter(|occurrence| occurrence.url == url_of("main.scad"))
        .count();
    assert_eq!(main_refs, 1);
}

#[test]
fn watched_file_delete_removes_resolved_symbol_links() {
    let mut world = World::new(&[
        ("lib.scad", "module foo() {}\n"),
        ("main.scad", "include <lib.scad>;\nfoo();\n"),
    ]);
    world.ensure_workspace_index();

    world.files.remove(&url_of("lib.scad"));
    world.changed("lib.scad", FileChange::Deleted);

    let foo_range = world.nth_identifier("main.scad", "foo", 0);
    assert!(
        world
            .server
            .symbol_at(&url_of("main.scad"), &foo_range)
            .is_none(),
        "deleted includes should no longer leave stale symbol links in dependents",
    );
}

#[test]
fn files_of_other_kinds_and_open_files_are_not_watched() {
    let mut world = World::new(&[
        ("main.scad", "module foo() {}\n"),
        ("notes.txt", "module foo() {}\n"),
    ]);
    world.ensure_workspace_index();
    let held = world.server.held_documents().len();

    world.changed("notes.txt", FileChange::Deleted);
    assert_eq!(world.server.held_documents().len(), held);

    let env = world.env();
    world.server.handle_did_open_text_document(
        &env,
        url_of("main.scad"),
        "module bar() {}\n".to_owned(),
    );
    world.changed("main.scad", FileChange::Deleted);
    assert_eq!(world.server.held_documents().len(), held);

    let env = world.env();
    world
        .server
        .handle_did_close_text_document(&env, &url_of("main.scad"));
    let foo = world.nth_identifier("main.scad", "foo", 0);
    assert!(world.server.symbol_at(&url_of("main.scad"), &foo).is_some());

    world.files.remove(&url_of("main.scad"));
    world.changed("main.scad", FileChange::Changed);
    assert!(!world.server.held_documents().contains(&url_of("main.scad")));
}

#[test]
fn rename_index_finds_references_across_files() {
    let mut world = World::new(&[
        ("lib.scad", "module foo() {}\nmodule use_foo() {\n  foo();\n}\n"),
        ("main.scad", "include <lib.scad>;\nfoo();\n"),
    ]);
    world.ensure_workspace_index();

    let position = world.nth_identifier("lib.scad", "foo", 0).start;
    let changes = world.rename_changes("lib.scad", position, "bar");

    assert_eq!(edits_in(&changes, "lib.scad"), Some(2));
    assert_eq!(edits_in(&changes, "main.scad"), Some(1));
    assert!(
        changes.values().flatten().all(|edit| edit.new_text == "bar"),
        "every edit should use the new identifier",
    );
}

#[test]
fn rename_index_respects_shadowed_local_symbols() {
    let mut world = World::new(&[(
        "local.scad",
        "module demo() {\n  a = 1;\n  echo(a);\n  if (true) {\n    a = 2;\n    echo(a);\n  }\n  echo(a);\n}\n",
    )]);
    world.ensure_workspace_index();

    let position = world.nth_identifier("local.scad", "a", 0).start;
    let changes = world.rename_changes("local.scad", position, "outer");
    let edits = changes.get(&url_of("local.scad")).expect("same-file edits");
    let lines: Vec<u32> = edits.iter().map(|edit| edit.range.start.line).collect();

    assert_eq!(edits.len(), 3);
    assert_eq!(lines, vec![1, 2, 7]);
}

#[test]
fn rename_index_updates_after_document_change() {
    let mut world = World::new(&[
        ("lib.scad", "module foo() {}\n"),
        ("main.scad", "include <lib.scad>;\nfoo();\n"),
    ]);
    world.ensure_workspace_index();

    let main_text = world.files[&url_of("main.scad")].clone();
    let env = world.env();
    world
        .server
        .handle_did_open_text_document(&env, url_of("main.scad"), main_text);

    let env = world.env();
    let found = world.server.handle_did_change_text_document(
        &env,
        &url_of("main.scad"),
        &vec![TextChange {
            range: None,
            text: "include <lib.scad>;\nfoo();\nfoo();\n".to_string(),
        }],
    );
    assert!(found.expect("diagnostics").is_empty());

    let position = world.nth_identifier("lib.scad", "foo", 0).start;
    let changes = world.rename_changes("lib.scad", position, "bar");

    assert_eq!(edits_in(&changes, "main.scad"), Some(2));
}

#[test]
fn rename_index_parameter_declaration_updates_named_arguments() {
    let mut world = World::new(&[
        ("lib.scad", "module demo(width=1) { echo(width); }\n"),
        ("main.scad", "include <lib.scad>;\ndemo(width=2);\n"),
    ]);
    world.ensure_workspace_index();

    let position = world.nth_identifier("lib.scad", "width", 0).start;
    let changes = world.rename_changes("lib.scad", position, "size");

    assert_eq!(edits_in(&changes, "lib.scad"), Some(2));
    assert_eq!(edits_in(&changes, "main.scad"), Some(1));
    assert!(changes.values().flatten().all(|edit| edit.new_text == "size"));
}

#[test]
fn rename_index_named_argument_resolves_back_to_parameter_declaration() {
    let mut world = World::new(&[
        ("lib.scad", "module demo(width=1) { echo(width); }\n"),
        ("main.scad", "include <lib.scad>;\ndemo(width=2);\n"),
    ]);
    world.ensure_workspace_index();

    let position = world.nth_identifier("main.scad", "width", 0).start;
    let changes = world.rename_changes("main.scad", position, "size");

    assert_eq!(edits_in(&changes, "lib.scad"), Some(2));
    assert_eq!(edits_in(&changes, "main.scad"), Some(1));
    assert!(changes.values().flatten().all(|edit| edit.new_text == "size"));
}

#[test]
fn rename_index_use_does_not_export_globals() {
    let mut world = World::new(&[
        ("lib.scad", "x = 1;\nmodule foo() { echo(x); }\n"),
        ("main.scad", "use <lib.scad>;\nfoo();\necho(x);\n"),
    ]);
    world.ensure_workspace_index();

    let foo_position = world.nth_identifier("lib.scad", "foo", 0).start;
    let foo_changes = world.rename_changes("lib.scad", foo_position, "bar");
    assert_eq!(edits_in(&foo_changes, "main.scad"), Some(1));

    let x_position = world.nth_identifier("lib.scad", "x", 0).start;
    let x_changes = world.rename_changes("lib.scad", x_position, "y");
    assert_eq!(edits_in(&x_changes, "lib.scad"), Some(2));
    assert!(
        !x_changes.contains_key(&url_of("main.scad")),
        "globals from a used file should not be visible in the using file",
    );
}

#[test]
fn rename_index_nested_use_is_not_reexported() {
    let mut world = World::new(&[
        ("nested.scad", "module inner() {}\n"),
        ("mid.scad", "use <nested.scad>;\nmodule outer() { inner(); }\n"),
        ("main.scad", "use <mid.scad>;\nouter();\ninner();\n"),
    ]);
    world.ensure_workspace_index();

    let outer_position = world.nth_identifier("mid.scad", "outer", 0).start;
    let outer_changes = world.rename_changes("mid.scad", outer_position, "wrapper");
    assert_eq!(edits_in(&outer_changes, "main.scad"), Some(1));

    let inner_position = world.nth_identifier("nested.scad", "inner", 0).start;
    let inner_changes = world.rename_changes("nested.scad", inner_position, "helper");
    assert_eq!(edits_in(&inner_changes, "mid.scad"), Some(1));
    assert!(
        !inner_changes.contains_key(&url_of("main.scad")),
        "nested use should not export its callables to the base file",
    );
}

#[test]
fn rename_index_include_reexports_nested_use_callables() {
    let mut world = World::new(&[
        ("nested.scad", "module inner() {}\n"),
        ("mid.scad", "use <nested.scad>;\nmodule outer() { inner(); }\n"),
        ("main.scad", "include <mid.scad>;\nouter();\ninner();\n"),
    ]);
    world.ensure_workspace_index();

    let inner_position = world.nth_identifier("nested.scad", "inner", 0).start;
    let inner_changes = world.rename_changes("nested.scad", inner_position, "helper");
    assert_eq!(edits_in(&inner_changes, "main.scad"), Some(1));
}

#[test]
fn places_of_a_symbol_stand_for_it() {
    let mut world = World::new(&[
        ("lib.scad", "module foo(a) { echo(a); }\nmodule bar() { foo(a=1); }\n"),
        ("main.scad", "include <lib.scad>;\nfoo(a=2);\nbar();\n"),
    ]);
    world.ensure_workspace_index();
    for (name, count) in [("foo", 3), ("a", 4), ("bar", 2)] {
        let at = world.nth_identifier("lib.scad", name, 0);
        let symbol = match world.server.symbol_at(&url_of("lib.scad"), &at) {
            Some(ResolvedSymbol::Workspace(symbol)) => symbol,
            result => panic!("expected workspace symbol, got {result:?}"),
        };
        let places = world.server.references_for(&symbol);
        assert_eq!(places.len(), count, "{name}");
        for place in places {
            match world.server.symbol_at(&place.url, &place.range) {
                Some(ResolvedSymbol::Workspace(other)) => assert!(other.same(&symbol)),
                result => panic!("expected workspace symbol, got {result:?}"),
            }
        }
    }
}

#[test]
fn renaming_answers_what_it_cannot_rename() {
    let mut world = World::new(&[("main.scad", "cube(1);\nnowhere();\n")]);
    let at = |line: u32, character: u32| Position { line, character };

    assert_eq!(
        failure(world.rename("main.scad", at(0, 0), "box")),
        (0, "Cannot rename builtin".to_owned())
    );
    assert_eq!(
        failure(world.rename("main.scad", at(1, 0), "box")),
        (0, "No definition found for this identifier".to_owned())
    );
    assert_eq!(
        failure(world.rename("main.scad", at(0, 5), "box")),
        (-32600, "No identifier at given position".to_owned())
    );
    assert!(world.rename("absent.scad", at(0, 0), "box").is_none());

    let env = world.env();
    let url = url_of("main.scad");
    let mut prepare = |line: u32, character: u32| {
        world
            .server
            .handle_prepare_rename(&env, &url, at(line, character), vec![])
    };
    assert!(matches!(prepare(1, 0), Some(RenameReply::Nothing)));
    assert!(matches!(prepare(0, 5), Some(RenameReply::Nothing)));
    assert_eq!(failure(prepare(0, 0)), (0, "Cannot rename builtin".to_owned()));
}

#[test]
fn preparing_to_rename_gives_the_identifier() {
    let mut world = World::new(&[("main.scad", "module foo() {}\nfoo();\n")]);
    let env = world.env();
    let reply = world.server.handle_prepare_rename(
        &env,
        &url_of("main.scad"),
        Position { line: 1, character: 1 },
        vec![],
    );
    match reply {
        Some(RenameReply::Target(range)) => assert_eq!(
            range,
            Range {
                start: Position { line: 1, character: 0 },
                end: Position { line: 1, character: 3 },
            }
        ),
        other => panic!("expected a range, got {other:?}"),
    }
}

#[test]
fn a_changed_configuration_forgets_the_index() {
    let mut world = World::new(&[("main.scad", "module foo() {}\n")]);
    world.ensure_workspace_index();
    let foo = world.nth_identifier("main.scad", "foo", 0);
    assert!(world.server.symbol_at(&url_of("main.scad"), &foo).is_some());

    let set = |indent: Option<&str>| Configuration {
        libraries: vec!["file:///lib/".to_owned(), "file:///lib/".to_owned()],
        default_param: Some(true),
        indent: indent.map(str::to_owned),
        fmt_query: Some("query".to_owned()),
    };
    world.server.handle_did_change_config(set(Some("\t")));
    assert!(world.server.symbol_at(&url_of("main.scad"), &foo).is_none());
    assert_eq!(world.server.indent(), "\t");
    assert_eq!(world.server.fmt_query().as_deref(), Some("query"));
    assert_eq!(world.server.library_locations(), vec!["file:///lib/"]);
    world.server.handle_did_change_config(set(Some("")));
    assert_eq!(world.server.indent(), "  ");
    world.server.handle_did_change_config(set(None));
    assert_eq!(world.server.indent(), "  ");
}

#[test]
fn a_change_of_an_unknown_document_is_passed_over() {
    let mut world = World::new(&[("main.scad", "module foo() {}\n")]);
    let env = world.env();
    assert!(world
        .server
        .handle_did_change_text_document(&env, &url_of("main.scad"), &vec![])
        .is_none());
}
