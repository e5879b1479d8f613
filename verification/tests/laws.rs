use openscad_lsp::addresses::url_extension;
use openscad_lsp::environment::Environment;
use openscad_lsp::gather::{find_candidates, Lookup};
use openscad_lsp::indexing::should_skip_directory;
use openscad_lsp::locations::{
    add_new, builtin_url, installation_library_location, keep_existing, library_candidates,
    library_url_at, library_urls, library_urls_at, Platform,
};
use openscad_lsp::navigation::formatting_answer;
use openscad_lsp::parse_code::ParsedCode;
use openscad_lsp::roots::{collect_roots, extract_workspace_roots, Root};
use openscad_lsp::scan::DependencyKind;
use openscad_lsp::server::{get_fmt_query, is_scad_extension, Server, ServerArguments};
use openscad_lsp::sorting::sort_texts;
use openscad_lsp::store::{CodeStore, CACHE_LIMIT};
use openscad_lsp::symbols::{
    Occurrence, PositionKey, RangeKey, ResolvedSymbol, SymbolKey, SymbolKindTag,
};
use openscad_lsp::table::Table;
use openscad_lsp::workspace_index::{FileAnalysis, OccurrenceMap, WorkspaceIndex};
use openscad_lsp::{Position, Range};

fn range(line: u32, from: u32, to: u32) -> Range {
    Range {
        start: Position { line, character: from },
        end: Position { line, character: to },
    }
}

fn symbol(url: &str, name: &str) -> SymbolKey {
    SymbolKey {
        url: url.to_owned(),
        name: name.to_owned(),
        kind: SymbolKindTag::Module,
        range: RangeKey::from(range(0, 7, 10)),
        is_top_level: true,
    }
}

fn analysis(url: &str, dependencies: &[&str], places: &[(&SymbolKey, Range)]) -> FileAnalysis {
    let mut occurrence_map = OccurrenceMap::new();
    let mut resolved_occurrences = vec![];
    for (symbol, range) in places {
        occurrence_map.insert(
            &RangeKey::from(*range),
            ResolvedSymbol::Workspace(symbol.copy()),
        );
        resolved_occurrences.push((
            symbol.copy(),
            Occurrence { url: url.to_owned(), range: *range },
        ));
    }
    FileAnalysis {
        dependencies: dependencies.iter().map(|d| d.to_string()).collect(),
        occurrence_map,
        resolved_occurrences,
    }
}

#[test]
fn visibility_narrows_and_a_use_goes_no_further() {
    let (i, u) = (DependencyKind::Include, DependencyKind::Use);
    assert_eq!(i.nested_visibility(i), Some(i));
    assert_eq!(i.nested_visibility(u), Some(u));
    assert_eq!(u.nested_visibility(i), Some(u));
    assert_eq!(u.nested_visibility(u), None);
    assert!(u.exports_only_callables());
    assert!(!i.exports_only_callables());
}

#[test]
fn taking_a_file_out_undoes_putting_it_in() {
    let foo = symbol("lib", "foo");
    let mut index = WorkspaceIndex::new();
    index.insert_file("lib", analysis("lib", &[], &[(&foo, range(0, 7, 10))]));
    index.insert_file(
        "main",
        analysis("main", &["lib"], &[(&foo, range(1, 0, 3)), (&foo, range(2, 0, 3))]),
    );
    assert_eq!(index.references_for(&foo).len(), 3);
    assert_eq!(index.collect_dependents("lib"), vec!["main"]);
    assert!(index.symbol_at("main", &range(1, 0, 3)).is_some());
    assert!(index.symbol_at("main", &range(1, 0, 4)).is_none());
    assert!(index.references_for(&symbol("lib", "bar")).is_empty());

    index.remove_file("main");
    let left = index.references_for(&foo);
    assert_eq!(left.len(), 1);
    assert_eq!(left[0].url, "lib");
    assert!(index.collect_dependents("lib").is_empty());
    assert!(index.symbol_at("main", &range(1, 0, 3)).is_none());
    assert!(!index.contains_file("main"));
    index.remove_file("main");
    assert!(index.contains_file("lib"));

    index.set_initialized();
    assert!(index.is_initialized());
    index.clear();
    assert!(!index.is_initialized());
    assert!(index.references_for(&foo).is_empty());
}

#[test]
fn dependents_are_found_through_others_and_around_circles() {
    let mut index = WorkspaceIndex::new();
    index.insert_file("b", analysis("b", &["a"], &[]));
    index.insert_file("c", analysis("c", &["b"], &[]));
    index.insert_file("a", analysis("a", &["c"], &[]));
    index.insert_file("d", analysis("d", &["e"], &[]));
    let mut found = index.collect_dependents("a");
    found.sort();
    assert_eq!(found, vec!["a", "b", "c"]);
    assert_eq!(index.collect_dependents("e"), vec!["d"]);
    assert!(index.collect_dependents("d").is_empty());
}

#[test]
fn ranges_that_differ_have_keys_that_differ() {
    let a = RangeKey::from(range(1, 2, 3));
    assert_eq!(a.start, PositionKey::from(Position { line: 1, character: 2 }));
    assert_eq!(a.pack(), RangeKey::from(range(1, 2, 3)).pack());
    assert_ne!(a.pack(), RangeKey::from(range(1, 3, 2)).pack());
    assert_ne!(a.pack(), RangeKey::from(range(2, 2, 3)).pack());
    let far = u32::MAX;
    assert_ne!(
        RangeKey::from(range(far, far, far)).pack(),
        RangeKey::from(range(far, far, far - 1)).pack()
    );
}

#[test]
fn texts_are_sorted_by_bytes_and_kept_once() {
    let texts = ["b", "a", "é", "ab", "b", "", "Z"];
    let sorted = sort_texts(texts.iter().map(|t| t.to_string()).collect());
    let mut expected: Vec<&str> = texts.to_vec();
    expected.sort();
    expected.dedup();
    assert_eq!(sorted, expected);
    let backwards = sort_texts(texts.iter().rev().map(|t| t.to_string()).collect());
    assert_eq!(backwards, sorted);
}

#[test]
fn the_oldest_documents_are_dropped() {
    let mut store = CodeStore::new();
    for k in 0..CACHE_LIMIT + 5 {
        store.insert_code(format!("file:///{k}"), "".to_owned());
    }
    assert_eq!(store.len(), CACHE_LIMIT + 1);
    assert!(!store.contains("file:///0"));
    assert!(store.contains("file:///1004"));
    assert_eq!(store.keys().last().map(String::as_str), Some("file:///1004"));

    store.insert_code("file:///500".to_owned(), "x = 1;".to_owned());
    assert_eq!(store.get("file:///500").map(|doc| doc.code.as_str()), Some("x = 1;"));
    assert_eq!(store.keys().last().map(String::as_str), Some("file:///500"));
    store.remove("file:///500");
    assert!(store.get("file:///500").is_none());
}

#[test]
fn a_document_is_read_once_and_again_when_asked() {
    let mut store = CodeStore::new();
    let mut env = Environment::new();
    env.add_file("file:///a".to_owned(), Some("a = 1;".to_owned()));
    assert!(store.load("file:///a", &env));
    assert!(!store.load("file:///b", &env));
    env.add_file("file:///a".to_owned(), Some("a = 2;".to_owned()));
    assert!(store.load("file:///a", &env));
    assert_eq!(store.get("file:///a").unwrap().code, "a = 1;");
    assert!(store.read_and_cache("file:///a", &env));
    assert_eq!(store.get("file:///a").unwrap().code, "a = 2;");
    env.add_file("file:///a".to_owned(), None);
    assert!(!store.read_and_cache("file:///a", &env));
    assert!(store.contains("file:///a"));
}

#[test]
fn links_are_those_of_the_document() {
    let mut env = Environment::new();
    env.add_link("a".to_owned(), "<x>".to_owned(), Some("b".to_owned()));
    env.add_link("a".to_owned(), "<y>".to_owned(), None);
    assert_eq!(env.link("a", "<x>").as_deref(), Some("b"));
    assert_eq!(env.link("b", "<x>"), None);
    assert!(env.knows_link("a", "<y>"));
    assert!(!env.knows_link("a", "<z>"));
    assert!(!env.knows_file("a"));
    assert_eq!(env.read("a"), None);

    let doc = ParsedCode::new("use <x>\ninclude <y>\n".to_owned(), "a".to_owned());
    assert_eq!(doc.links(), vec!["<x>", "<y>"]);
}

#[test]
fn paths_lead_beside_the_document_first() {
    let libraries = vec!["file:///libs/".to_owned(), "no address".to_owned()];
    assert_eq!(
        find_candidates("file:///work/main.scad", "<sub/x.scad>", &libraries),
        vec!["file:///work/sub/x.scad", "file:///libs/sub/x.scad"]
    );
    assert!(find_candidates("main.scad", "<x.scad>", &vec![]).is_empty());
}

#[test]
fn gathering_follows_paths_until_all_is_known() {
    let files = [
        ("file:///w/a", "use <b>\ninclude <c>\n"),
        ("file:///w/b", "use <a>\nuse <d>\n"),
        ("file:///w/d", "x = 1;\n"),
    ];
    let args = ServerArguments {
        builtin: "".to_owned(),
        depth: 0,
        include_default_params: false,
        indent: "  ".to_owned(),
    };
    let server = Server::new(args, None, "", None).expect("server");
    let held = server.held_documents();
    let mut gathering = server.gather(&vec![], &vec!["file:///w/a".to_owned(), held[0].clone()]);
    let mut read = vec![];
    loop {
        match gathering.next() {
            Lookup::Read { url } => {
                let text = files.iter().find(|file| file.0 == url).map(|file| file.1.to_owned());
                read.push(url.clone());
                gathering.give_text(url, text);
            }
            Lookup::Resolve { url, path, candidates } => {
                let target = candidates
                    .into_iter()
                    .find(|target| files.iter().any(|file| file.0 == target));
                gathering.give_link(url, path, target);
            }
            Lookup::Done => break,
        }
    }
    let env = gathering.finish();
    read.sort();
    assert_eq!(read, vec!["file:///w/a", "file:///w/b", "file:///w/d"]);
    assert_eq!(env.link("file:///w/a", "<b>").as_deref(), Some("file:///w/b"));
    assert_eq!(env.link("file:///w/b", "<d>").as_deref(), Some("file:///w/d"));
    assert!(env.knows_link("file:///w/a", "<c>"));
    assert_eq!(env.link("file:///w/a", "<c>"), None);
    assert!(!env.knows_file(&held[0]));
}

#[test]
fn a_table_gives_back_what_was_put_in() {
    let mut table: Table<u32> = Table::new();
    table.insert("a", 1);
    table.insert("b", 2);
    table.insert("a", 3);
    assert_eq!(table.get("a"), Some(&3));
    assert_eq!(table.take("a"), Some(3));
    assert_eq!(table.take("a"), None);
    assert!(!table.contains_key("a"));
    table.insert("a", 4);
    assert_eq!(table.get("a"), Some(&4));
    assert_eq!(table.get("b"), Some(&2));
}

#[test]
fn libraries_have_addresses_that_end_in_a_slash() {
    assert_eq!(library_url_at("/libs").as_deref(), Some("file:///libs/"));
    assert_eq!(library_url_at("/libs/").as_deref(), Some("file:///libs/"));
    assert_eq!(library_url_at("/my libs").as_deref(), Some("file:///my%20libs/"));
    assert_eq!(library_url_at(""), None);
    let urls_of = |path: &str| library_urls(&vec![path.to_owned()]);
    assert_eq!(urls_of("/libs"), vec!["file:///libs/"]);
    assert_eq!(urls_of("~x/libs"), library_urls_at(&vec!["~x/libs".to_owned()]));
    for url in urls_of("~/libs") {
        assert!(url.ends_with("/libs/"));
    }
    assert_eq!(builtin_url("/builtin").as_deref(), Some("file:///builtin"));
}

#[test]
fn libraries_are_kept_once() {
    let texts = |list: &[&str]| list.iter().map(|t| t.to_string()).collect::<Vec<_>>();
    let mut list = texts(&["a"]);
    add_new(&mut list, texts(&["b", "a", "b", "c"]));
    assert_eq!(list, vec!["a", "b", "c"]);
    assert_eq!(
        library_candidates(texts(&["u"]), Some("own".to_owned()), Platform::Other),
        vec!["u", "own", "/usr/share/openscad/libraries/"]
    );
    assert_eq!(
        library_candidates(vec![], None, Platform::MacOs),
        vec![installation_library_location(Platform::MacOs)]
    );
}

fn places(roots: &[Root]) -> Vec<(&str, bool)> {
    roots.iter().map(|root| (root.place().text.as_str(), root.place().is_path)).collect()
}

#[test]
fn roots_come_from_the_address_or_the_path_and_the_folders() {
    let text = |t: &str| Some(t.to_owned());
    let at = |path: &str| Some(Root::at_path(path.to_owned()));
    assert_eq!(
        places(&collect_roots(Some(at("/r")), at("/p"), vec![at("/f"), None, at("/r")])),
        vec![("/r", true), ("/f", true)]
    );
    assert!(collect_roots(Some(None), at("/p"), vec![]).is_empty());
    assert_eq!(places(&collect_roots(None, at("/p"), vec![at("/p")])), vec![("/p", true)]);
    assert!(collect_roots(None, None, vec![]).is_empty());
    assert_eq!(
        places(&extract_workspace_roots(
            text("file:///a%20b"),
            text("/p"),
            vec!["file:///a%20b".to_owned(), "file:///c".to_owned(), "https://x/y".to_owned()],
        )),
        vec![("/a b", true), ("/c", true)]
    );
    assert_eq!(
        places(&extract_workspace_roots(None, text("/p"), vec!["file:///c".to_owned()])),
        vec![("/p", true), ("/c", true)]
    );
}

#[test]
fn roots_are_compared_by_components() {
    let at = |path: &str| Some(Root::at_path(path.to_owned()));
    let roots = collect_roots(
        None,
        at("/a"),
        vec![at("/a/"), at("/a/b"), at("/x\\y"), at("/x\\y/"), at("/a//b/."), at("/a/./b"), at("/"), at("/A"), at("a")],
    );
    assert_eq!(
        places(&roots),
        vec![("/a", true), ("/a/b", true), ("/x\\y", true), ("/", true), ("/A", true), ("a", true)]
    );
}

#[test]
fn a_root_whose_path_is_not_a_text_is_kept_by_its_address() {
    let folders = [
        "file:///a/%FF",
        "file:///a/%FF/",
        "file:///%61//%ff/.?x",
        "file:///a/%FE",
        "file:///%FF/C:",
    ];
    let roots = extract_workspace_roots(
        None,
        None,
        folders.iter().map(|folder| folder.to_string()).collect(),
    );
    assert_eq!(
        places(&roots),
        vec![("file:///a/%FF", false), ("file:///a/%FE", false), ("file:///%FF/C:", false)]
    );
}

#[test]
fn a_root_is_at_the_path_that_its_address_says() {
    let addresses = ["file:///a%20b/c%25", "file:///%C3%A4", "file:///C:/x", "file:///w/xC:", "file:///"];
    let roots = extract_workspace_roots(
        None,
        None,
        addresses.iter().map(|address| address.to_string()).collect(),
    );
    assert_eq!(
        places(&roots),
        vec![("/a b/c%", true), ("/\u{e4}", true), ("/C:/x", true), ("/w/xC:/", true), ("/", true)]
    );
}

#[test]
fn libraries_are_directories_and_added_once() {
    let texts = |list: &[&str]| list.iter().map(|t| t.to_string()).collect::<Vec<String>>();
    let urls = library_urls(&texts(&["/libs", "", "/more/", "/a b?x"]));
    assert_eq!(urls, vec!["file:///libs/", "file:///more/", "file:///a%20b?x/"]);
    assert_eq!(keep_existing(&urls, &vec![false, true]), vec!["file:///more/"]);
    let mut list = texts(&["file:///libs/"]);
    add_new(&mut list, urls.clone());
    assert_eq!(list, urls);
    add_new(&mut list, urls.clone());
    assert_eq!(list, urls);
}

#[test]
fn a_lone_drive_is_asked_with_a_slash() {
    for address in ["file:///C:", "file:///C%3A", "file:///c%3a", "file:///C:?x#y", "file:///C:/"] {
        let roots = extract_workspace_roots(Some(address.to_owned()), None, vec![]);
        let drive = if address.contains('c') { "/c:/" } else { "/C:/" };
        assert_eq!(places(&roots), vec![(drive, true)]);
    }
    for address in ["file://host", "file://host/", "file://host//x", "file://host/%2Fx", "nowhere"] {
        assert!(extract_workspace_roots(Some(address.to_owned()), None, vec![]).is_empty());
    }
}

#[test]
fn directories_of_tools_are_skipped() {
    for name in [
        ".git",
        ".hg",
        ".svn",
        "node_modules",
        "target",
        ".idea",
        ".vscode",
        "__pycache__",
    ] {
        assert!(should_skip_directory(Some(name)));
    }
    assert!(!should_skip_directory(Some("targets")));
    assert!(!should_skip_directory(None));
}

#[test]
fn extensions_are_compared_in_either_case() {
    for extension in ["scad", "SCAD", "ScAd"] {
        assert!(is_scad_extension(extension));
    }
    for extension in ["", "sca", "scadx", "stl"] {
        assert!(!is_scad_extension(extension));
    }
}

#[test]
fn an_extension_follows_the_last_dot_of_a_name() {
    let at = |url: &str| url_extension(url);
    assert_eq!(at("file:///a/main.scad").as_deref(), Some("scad"));
    assert_eq!(at("file:///main.old.SCAD?x.txt#y.txt").as_deref(), Some("SCAD"));
    assert_eq!(at("file:///a.b/main.").as_deref(), Some(""));
    assert_eq!(at("file:///..scad").as_deref(), Some("scad"));
    assert_eq!(at("file:///a/x.scad/").as_deref(), Some("scad"));
    assert_eq!(at("file:///a%20b%2Esc%61d").as_deref(), Some("scad"));
    assert_eq!(at("file:///C:/a.b/main.txt").as_deref(), Some("txt"));
    assert_eq!(at("file:///%FF.scad").as_deref(), Some("scad"));
    for url in ["file:///a/.scad", "file:///a.scad/main", "file:///main", "file:///C:", "main.scad"] {
        assert_eq!(at(url), None);
    }
    assert_eq!(at("https://x/main.scad"), None);
}

#[test]
fn a_query_needs_a_file() {
    let text = || Some("query".to_owned());
    assert_eq!(get_fmt_query(None, text()), None);
    assert_eq!(get_fmt_query(Some("".to_owned()), text()), None);
    assert_eq!(get_fmt_query(Some("q.scm".to_owned()), None), None);
    assert_eq!(get_fmt_query(Some("q.scm".to_owned()), text()), text());
}

#[test]
fn laying_out_replaces_the_document_or_says_why_not() {
    let doc = ParsedCode::new("a=1;\n".to_owned(), "a".to_owned());
    let edit = formatting_answer(&doc, Ok("a = 1;\n".to_owned())).expect("edit");
    assert_eq!(edit.range, doc.tree.range(0));
    assert_eq!(edit.new_text, "a = 1;\n");
    let error = formatting_answer(&doc, Err("bad".to_owned())).expect_err("error");
    assert_eq!(error.code, -32603);
    assert_eq!(error.message, "topiary: bad");
}

#[test]
fn a_server_starts_with_what_the_language_knows() {
    let args = |builtin: &str| ServerArguments {
        builtin: builtin.to_owned(),
        depth: 0,
        include_default_params: false,
        indent: "  ".to_owned(),
    };
    let bundled = Server::new(args("/mine.scad"), None, "module cube() {}", None).expect("server");
    assert_eq!(bundled.held_documents(), vec!["file:///builtin"]);
    let text = Some("module mine() {}".to_owned());
    let external = Server::new(args("/mine.scad"), text, "", None).expect("server");
    assert_eq!(external.held_documents(), vec!["file:///mine.scad"]);
    let nowhere = Server::new(args(":x"), Some("".to_owned()), "", None);
    assert!(nowhere.is_none());
}
