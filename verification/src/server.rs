use vstd::hash_set::StringHashSet;
use vstd::prelude::*;
use vstd::string::*;

use crate::addresses::{extension_fits, url_extension};
use crate::analysis::{open_document, opened, with_opened, KnowledgeView};
use crate::checks::{edit_diagnostics, edit_findings};
use crate::completion::{completed, handle_completion, Completion};
use crate::diagnostic::{diagnostic_views, Diagnostic};
use crate::environment::{EnvView, Environment};
use crate::gather::{Gathering, Source};
use crate::index_laws::{consistent, law_empty_index_is_consistent};
use crate::indexing::{
    ensure_workspace_index, ensured, held_urls, rebuild_workspace_index, rebuilt,
    refresh_workspace_index_for_url, refreshed_for,
};
use crate::lists::lemma_push_to_set;
use crate::locations::{add_new, builtin_url, builtin_url_of, with_new};
use crate::navigation::{
    defined, document_symbols, handle_definition, handle_document_symbols, handle_hover, hovered,
    location_views, symbol_views, Location, LocationView, SymbolInformation,
};
use crate::parse_code::{
    append_texts, clone_texts, edited_code, texts, DocView, ParsedCode, TextChange,
};
use crate::position::{Position, Range};
use crate::rename::{
    build_rename_workspace_edit, file_edit_views, handle_prepare_rename, handle_rename,
    lookup_rename_symbol, prepare_reply, rename_edits, rename_lookup, rename_reply, FileEdits,
    RenameLookup, RenameReply,
};
use crate::resolve::{find_identities, SearchSettings, SettingsView};
use crate::response_item::{clone_text, item_views, Item};
use crate::roots::{
    fits_base, keep_present, option_texts, present, root_base, root_views, Root, RootView,
};
use crate::scan::{listed, NameFilter};
use crate::store::{
    all_changed, find, lemma_find, lemma_find_unique, lemma_without, lookup, refreshed,
    unique_keys, with_code, with_document, with_loaded, with_reread, without, CodeStore, StoreView,
};
use crate::symbols::{occurrence_views, Occurrence, ResolvedSymbol, SymbolKey};
use crate::syntax::text_of;
use crate::text::same_text;
use crate::workspace_index::{IndexView, WorkspaceIndex};

verus! {

/// The path that stands for what the language itself knows where no file was given for it.
pub open spec fn bundled_path() -> Seq<char> {
    "/builtin"@
}

/// How a server is started.
#[derive(Debug)]
pub struct ServerArguments {
    /// The path of the file of what the language itself knows.
    pub builtin: String,
    /// The number of files that a name may be away; zero for any number.
    pub depth: usize,
    pub include_default_params: bool,
    pub indent: String,
}

/// A server: the documents it holds, what it knows of the workspace, and how it was set up.
pub struct Server {
    codes: CodeStore,
    workspace_index: WorkspaceIndex,
    settings: SearchSettings,
    include_default_params: bool,
    indent: String,
    fmt_query: Option<String>,
    library_locations: Vec<String>,
    workspace_roots: Vec<Root>,
    open_documents: StringHashSet,
    did_change_watched_files_dynamic_registration: bool,
    did_change_watched_files_relative_pattern_support: bool,
    watched_files_registered: bool,
    pending_watched_files_registration: Option<i32>,
    next_request_id: i32,
}

/// The model of a [`Server`].
#[verifier::ext_equal]
pub struct ServerView {
    pub known: KnowledgeView,
    pub settings: SettingsView,
    pub include_default_params: bool,
    pub indent: Seq<char>,
    pub fmt_query: Option<Seq<char>>,
    pub library_locations: Seq<Seq<char>>,
    pub workspace_roots: Seq<RootView>,
    pub open_documents: Set<Seq<char>>,
    /// Whether the client lets the server ask to be told of changed files.
    pub dynamic_registration: bool,
    /// Whether the client knows patterns below a directory.
    pub relative_patterns: bool,
    pub watched_files_registered: bool,
    pub pending_registration: Option<i32>,
    pub next_request_id: i32,
}

impl View for Server {
    type V = ServerView;

    closed spec fn view(&self) -> ServerView {
        ServerView {
            known: KnowledgeView { store: self.codes@, index: self.workspace_index@ },
            settings: self.settings@,
            include_default_params: self.include_default_params,
            indent: self.indent@,
            fmt_query: text_of(self.fmt_query),
            library_locations: texts(self.library_locations@),
            workspace_roots: root_views(self.workspace_roots@),
            open_documents: self.open_documents@,
            dynamic_registration: self.did_change_watched_files_dynamic_registration,
            relative_patterns: self.did_change_watched_files_relative_pattern_support,
            watched_files_registered: self.watched_files_registered,
            pending_registration: self.pending_watched_files_registration,
            next_request_id: self.next_request_id,
        }
    }
}

/// The document of what the language itself knows.
pub open spec fn builtin_document(url: Seq<char>, code: Seq<char>, external: bool) -> DocView {
    DocView { is_builtin: true, external_builtin: external, ..DocView::fresh(code, url) }
}

/// A server that was just started, if what the language itself knows has an address. Where the
/// file for it could not be read, a text that comes with the program takes its place.
pub open spec fn started(
    builtin: Seq<char>,
    depth: usize,
    include_default_params: bool,
    indent: Seq<char>,
    builtin_text: Option<Seq<char>>,
    bundled: Seq<char>,
    fmt_query: Option<Seq<char>>,
) -> Option<ServerView> {
    let (path, code, external) = match builtin_text {
        Some(text) => (builtin, text, true),
        None => (bundled_path(), bundled, false),
    };
    match builtin_url_of(path) {
        None => None,
        Some(url) => Some(
            ServerView {
                known: KnowledgeView {
                    store: seq![(url, builtin_document(url, code, external))],
                    index: IndexView::empty(),
                },
                settings: SettingsView { builtin_url: url, depth },
                include_default_params,
                indent,
                fmt_query,
                library_locations: Seq::empty(),
                workspace_roots: Seq::empty(),
                open_documents: Set::empty(),
                dynamic_registration: false,
                relative_patterns: false,
                watched_files_registered: false,
                pending_registration: None,
                next_request_id: 1,
            },
        ),
    }
}

/// The query for the formatter: the text of the file for it, where one is named.
pub fn get_fmt_query(query_file: Option<String>, text: Option<String>) -> (query: Option<String>)
    ensures
        text_of(query) == (if query_file is Some && query_file->0@.len() > 0 {
            text_of(text)
        } else {
            None
        }),
{
    match query_file {
        Some(path) => if path.as_str().unicode_len() == 0 {
            None
        } else {
            text
        },
        None => None,
    }
}

/// What a client set.
#[derive(Debug)]
pub struct Configuration {
    /// The libraries that the search paths lead to.
    pub libraries: Vec<String>,
    pub default_param: Option<bool>,
    pub indent: Option<String>,
    pub fmt_query: Option<String>,
}

/// The indentation that a client set, or two spaces.
pub open spec fn chosen_indent(indent: Option<Seq<char>>) -> Seq<char> {
    match indent {
        Some(indent) => if indent.len() == 0 {
            "  "@
        } else {
            indent
        },
        None => "  "@,
    }
}

/// What happened to a file.
#[derive(Clone, Copy, Debug, PartialEq, Eq, Structural)]
pub enum FileChange {
    Created,
    Changed,
    Deleted,
    Other,
}

/// A file to which something happened.
#[derive(Debug)]
pub struct FileEvent {
    pub url: String,
    pub change: FileChange,
    /// The end of its name.
    pub extension: Option<String>,
}

/// The model of a [`FileEvent`].
#[verifier::ext_equal]
pub struct FileEventView {
    pub url: Seq<char>,
    pub change: FileChange,
    pub extension: Option<Seq<char>>,
}

impl View for FileEvent {
    type V = FileEventView;

    open spec fn view(&self) -> FileEventView {
        FileEventView { url: self.url@, change: self.change, extension: text_of(self.extension) }
    }
}

/// The models of a list of events.
pub open spec fn event_views(events: Seq<FileEvent>) -> Seq<FileEventView> {
    events.map_values(|e: FileEvent| e@)
}

/// Whether a text is `scad`, in small or capital letters.
pub open spec fn scad_extension(text: Seq<char>) -> bool {
    &&& text.len() == 4
    &&& text[0] == 's' || text[0] == 'S'
    &&& text[1] == 'c' || text[1] == 'C'
    &&& text[2] == 'a' || text[2] == 'A'
    &&& text[3] == 'd' || text[3] == 'D'
}

impl FileEventView {
    /// Whether the file is one of the language, and not that of what the language itself knows.
    pub open spec fn watched(self, builtin_url: Seq<char>) -> bool {
        self.url != builtin_url && match self.extension {
            Some(extension) => scad_extension(extension),
            None => false,
        }
    }
}

/// How far a server has come with what happened to files.
#[verifier::ext_equal]
pub struct EventsView {
    pub known: KnowledgeView,
    /// The files that were read again.
    pub changed: Seq<Seq<char>>,
    /// Whether files came or went, so that links may lead elsewhere now.
    pub needs_rebuild: bool,
}

/// What is known with the documents that are held changed.
pub open spec fn with_store(known: KnowledgeView, store: StoreView) -> KnowledgeView {
    KnowledgeView { store, ..known }
}

/// How far a server has come after one more event. Files that are open in the client, and files
/// of other kinds, are passed over. A file that is known and can be read is read again; any other
/// event makes all files be looked at from scratch.
pub open spec fn event_step(
    settings: SettingsView,
    env: EnvView,
    open: Set<Seq<char>>,
    state: EventsView,
    event: FileEventView,
) -> EventsView {
    let store = state.known.store;
    let url = event.url;
    if !event.watched(settings.builtin_url) || open.contains(url) {
        state
    } else {
        match event.change {
            FileChange::Changed => if state.known.index.files.contains_key(url) || find(
                store,
                url,
            ) is Some {
                if env.read(url) is Some {
                    EventsView {
                        known: with_store(state.known, with_reread(store, url, env)),
                        changed: with_new(state.changed, seq![url]),
                        ..state
                    }
                } else {
                    EventsView {
                        known: with_store(state.known, without(store, url)),
                        needs_rebuild: true,
                        ..state
                    }
                }
            } else {
                EventsView {
                    known: with_store(state.known, with_reread(without(store, url), url, env)),
                    needs_rebuild: true,
                    ..state
                }
            },
            FileChange::Created => EventsView {
                known: with_store(state.known, with_reread(without(store, url), url, env)),
                needs_rebuild: true,
                ..state
            },
            FileChange::Deleted => EventsView {
                known: with_store(state.known, without(store, url)),
                needs_rebuild: true,
                ..state
            },
            FileChange::Other => state,
        }
    }
}

/// How far a server has come after the first `k` events.
pub open spec fn events_seen(
    settings: SettingsView,
    env: EnvView,
    open: Set<Seq<char>>,
    known: KnowledgeView,
    events: Seq<FileEventView>,
    k: int,
) -> EventsView
    decreases k,
{
    if k <= 0 {
        EventsView { known, changed: Seq::empty(), needs_rebuild: false }
    } else {
        event_step(
            settings,
            env,
            open,
            events_seen(settings, env, open, known, events, k - 1),
            events[k - 1],
        )
    }
}

/// What is known after the first `k` files of a list and those that depend on them were looked at
/// again.
pub open spec fn refreshed_all(
    settings: SettingsView,
    env: EnvView,
    known: KnowledgeView,
    urls: Seq<Seq<char>>,
    k: int,
) -> KnowledgeView
    decreases k,
{
    if k <= 0 {
        known
    } else {
        refreshed_for(
            settings,
            env,
            refreshed_all(settings, env, known, urls, k - 1),
            urls[k - 1],
        )
    }
}

/// What is known once a server has dealt with what happened to files.
pub open spec fn files_changed(
    settings: SettingsView,
    env: EnvView,
    open: Set<Seq<char>>,
    known: KnowledgeView,
    events: Seq<FileEventView>,
    scanned: Seq<Seq<char>>,
) -> KnowledgeView {
    let seen = events_seen(settings, env, open, known, events, events.len() as int);
    if seen.needs_rebuild {
        rebuilt(settings, env, seen.known, scanned)
    } else {
        refreshed_all(settings, env, seen.known, seen.changed, seen.changed.len() as int)
    }
}

/// The texts of the documents that are held.
pub open spec fn held_sources(store: StoreView) -> Seq<Source> {
    store.map_values(|e: (Seq<char>, DocView)| (e.0, e.1.code))
}

/// The files that the first `k` documents were found to lead to.
pub open spec fn followed(store: StoreView, k: int) -> Seq<Seq<char>>
    decreases k,
{
    if k <= 0 || k > store.len() {
        Seq::empty()
    } else {
        let doc = store[k - 1].1;
        followed(store, k - 1) + listed(doc.includes) + listed(doc.uses)
    }
}

/// The files that a request may need besides those that it names: those that the documents that
/// are held lead to, and that of what the language itself knows.
pub open spec fn needed_files(server: ServerView, needed: Seq<Seq<char>>) -> Seq<Seq<char>> {
    let store = server.known.store;
    (needed + followed(store, store.len() as int)).push(server.settings.builtin_url)
}

/// A pattern of files that the server wants to be told about.
#[derive(Debug)]
pub struct FileSystemWatcher {
    /// The directory below which the files are, if it matters.
    pub base_url: Option<String>,
    pub pattern: String,
}

/// The model of a [`FileSystemWatcher`].
#[verifier::ext_equal]
pub struct WatcherView {
    pub base_url: Option<Seq<char>>,
    pub pattern: Seq<char>,
}

impl View for FileSystemWatcher {
    type V = WatcherView;

    open spec fn view(&self) -> WatcherView {
        WatcherView { base_url: text_of(self.base_url), pattern: self.pattern@ }
    }
}

/// The models of a list of patterns.
pub open spec fn watcher_views(watchers: Seq<FileSystemWatcher>) -> Seq<WatcherView> {
    watchers.map_values(|w: FileSystemWatcher| w@)
}

/// The patterns of the files of the language, given the addresses of the roots of the workspace:
/// one below each root that has one, where the client knows such patterns, and else one for all.
pub open spec fn watchers_for(relative: bool, bases: Seq<Option<Seq<char>>>) -> Seq<WatcherView> {
    if relative && bases.len() > 0 {
        present(bases).map_values(
            |base: Seq<char>| WatcherView { base_url: Some(base), pattern: "**/*.scad"@ },
        )
    } else {
        seq![WatcherView { base_url: None, pattern: "**/*.scad"@ }]
    }
}

/// A request to be told of changed files.
#[derive(Debug)]
pub struct WatchRequest {
    pub id: i32,
    /// What is requested: to be registered for something.
    pub method: String,
    /// The name of the registration.
    pub registration_id: String,
    /// What the registration is for: to be told of changed files.
    pub registration_method: String,
    pub watchers: Vec<FileSystemWatcher>,
}

/// The model of a [`WatchRequest`].
#[verifier::ext_equal]
pub struct WatchRequestView {
    pub id: i32,
    pub method: Seq<char>,
    pub registration_id: Seq<char>,
    pub registration_method: Seq<char>,
    pub watchers: Seq<WatcherView>,
}

impl View for WatchRequest {
    type V = WatchRequestView;

    open spec fn view(&self) -> WatchRequestView {
        WatchRequestView {
            id: self.id,
            method: self.method@,
            registration_id: self.registration_id@,
            registration_method: self.registration_method@,
            watchers: watcher_views(self.watchers@),
        }
    }
}

/// The server after it asked to be told of changed files, and the patterns it asked for. It asks
/// only a client that lets it, only for something, and not twice.
pub open spec fn registered(server: ServerView, bases: Seq<Option<Seq<char>>>) -> (
    ServerView,
    Option<WatchRequestView>,
) {
    let watchers = watchers_for(server.relative_patterns, bases);
    if !server.dynamic_registration || server.watched_files_registered
        || server.pending_registration is Some || watchers.len() == 0 {
        (server, None)
    } else {
        (
            ServerView {
                pending_registration: Some(server.next_request_id),
                next_request_id: (server.next_request_id + 1) as i32,
                ..server
            },
            Some(
                WatchRequestView {
                    id: server.next_request_id,
                    method: "client/registerCapability"@,
                    registration_id: "openscad-lsp-watch-scad"@,
                    registration_method: "workspace/didChangeWatchedFiles"@,
                    watchers,
                },
            ),
        )
    }
}

/// The number or text of a request that a client answers.
#[derive(Debug)]
pub enum ResponseId {
    Number(i32),
    Text(String),
}

/// What an answer of a client was about.
#[derive(Clone, Copy, Debug, PartialEq, Eq, Structural)]
pub enum ResponseOutcome {
    /// The client will tell of changed files.
    Registered,
    /// The client will not tell of changed files.
    Refused,
    /// The server asked for nothing like that.
    Unknown,
}

/// Whether a text is `scad`, in small or capital letters.
pub fn is_scad_extension(text: &str) -> (r: bool)
    ensures
        r == scad_extension(text@),
{
    if text.unicode_len() != 4 {
        return false;
    }
    let (a, b, c, d) = (text.get_char(0), text.get_char(1), text.get_char(2), text.get_char(3));
    (a == 's' || a == 'S') && (b == 'c' || b == 'C') && (c == 'a' || c == 'A') && (d == 'd' || d
        == 'D')
}

impl Server {
    /// The server's documents and index are in order, and the index says of its files exactly
    /// what was found in them.
    pub closed spec fn wf(self) -> bool {
        self.codes.wf() && self.workspace_index.wf() && consistent(self.workspace_index@)
    }

    /// What the index of a server says of its files is exactly what was found in them.
    pub proof fn law_index_is_consistent(self)
        requires
            self.wf(),
        ensures
            consistent(self@.known.index),
    {
    }

    /// Starts a server, given the text of the file of what the language itself knows, if it could
    /// be read, and the text that comes with the program.
    pub fn new(
        args: ServerArguments,
        builtin_text: Option<String>,
        bundled: &str,
        fmt_query: Option<String>,
    ) -> (server: Option<Server>)
        ensures
            match server {
                Some(server) => server.wf() && started(
                    args.builtin@,
                    args.depth,
                    args.include_default_params,
                    args.indent@,
                    text_of(builtin_text),
                    bundled@,
                    text_of(fmt_query),
                ) == Some(server@),
                None => started(
                    args.builtin@,
                    args.depth,
                    args.include_default_params,
                    args.indent@,
                    text_of(builtin_text),
                    bundled@,
                    text_of(fmt_query),
                ) is None,
            },
    {
        let external: bool = builtin_text.is_some();
        let (path, code): (String, String) = match builtin_text {
            Some(text) => (args.builtin, text),
            None => ("/builtin".to_owned(), bundled.to_owned()),
        };
        let url: String = match builtin_url(path.as_str()) {
            Some(url) => url,
            None => {
                return None;
            },
        };
        let mut codes = CodeStore::new();
        let ghost none = codes@;
        codes.insert_code(url.clone(), code);
        proof {
            lemma_find(none, url@);
            assert(without(none, url@) =~= Seq::empty());
            assert(codes@ =~= seq![(url@, DocView::fresh(code@, url@))]);
            lemma_find(codes@, url@);
            assert(codes@[0].0 == url@);
        }
        let ghost held = codes@;
        codes.mark_builtin(url.as_str(), external);
        assert(codes@ =~= seq![(url@, builtin_document(url@, code@, external))]);
        proof {
            law_empty_index_is_consistent();
        }
        let server = Server {
            codes,
            workspace_index: WorkspaceIndex::new(),
            settings: SearchSettings { builtin_url: url, depth: args.depth },
            include_default_params: args.include_default_params,
            indent: args.indent,
            fmt_query,
            library_locations: Vec::new(),
            workspace_roots: Vec::new(),
            open_documents: StringHashSet::new(),
            did_change_watched_files_dynamic_registration: false,
            did_change_watched_files_relative_pattern_support: false,
            watched_files_registered: false,
            pending_watched_files_registration: None,
            next_request_id: 1,
        };
        proof {
            assert(server@.library_locations =~= Seq::empty());
            assert(server@.workspace_roots =~= Seq::<RootView>::empty());
        }
        Some(server)
    }

    /// The libraries that paths are looked for in.
    pub fn library_locations(&self) -> (urls: Vec<String>)
        ensures
            texts(urls@) == self@.library_locations,
    {
        clone_texts(&self.library_locations)
    }

    /// The roots of the workspace.
    pub fn workspace_roots(&self) -> (roots: &Vec<Root>)
        ensures
            root_views(roots@) == self@.workspace_roots,
    {
        &self.workspace_roots
    }

    /// Sets the roots of the workspace.
    pub fn set_workspace_roots(&mut self, roots: Vec<Root>)
        requires
            old(self).wf(),
        ensures
            final(self).wf(),
            final(self)@ == (ServerView { workspace_roots: root_views(roots@), ..old(self)@ }),
    {
        self.workspace_roots = roots;
    }

    /// The indentation for the formatter.
    pub fn indent(&self) -> (indent: String)
        ensures
            indent@ == self@.indent,
    {
        self.indent.clone()
    }

    /// The query for the formatter.
    pub fn fmt_query(&self) -> (query: Option<String>)
        ensures
            text_of(query) == self@.fmt_query,
    {
        clone_text(&self.fmt_query)
    }

    /// Adds libraries that are there and not known yet.
    pub fn extend_libs(&mut self, libraries: Vec<String>)
        requires
            old(self).wf(),
        ensures
            final(self).wf(),
            final(self)@ == (ServerView {
                library_locations: with_new(old(self)@.library_locations, texts(libraries@)),
                ..old(self)@
            }),
    {
        add_new(&mut self.library_locations, libraries);
    }

    /// Takes note of what the client can do.
    pub fn configure_client_capabilities(&mut self, dynamic: Option<bool>, relative: Option<bool>)
        requires
            old(self).wf(),
        ensures
            final(self).wf(),
            final(self)@ == (ServerView {
                dynamic_registration: dynamic == Some(true),
                relative_patterns: relative == Some(true),
                ..old(self)@
            }),
    {
        self.did_change_watched_files_dynamic_registration =
        match dynamic {
            Some(dynamic) => dynamic,
            None => false,
        };
        self.did_change_watched_files_relative_pattern_support =
        match relative {
            Some(relative) => relative,
            None => false,
        };
    }

    /// Whether the client lets the server ask to be told of changed files.
    pub fn supports_dynamic_watched_files_registration(&self) -> (r: bool)
        ensures
            r == self@.dynamic_registration,
    {
        self.did_change_watched_files_dynamic_registration
    }

    /// Whether the client knows patterns below a directory.
    pub fn supports_relative_watch_patterns(&self) -> (r: bool)
        ensures
            r == self@.relative_patterns,
    {
        self.did_change_watched_files_relative_pattern_support
    }

    /// Whether the client will tell of changed files.
    pub fn watched_files_registered(&self) -> (r: bool)
        ensures
            r == self@.watched_files_registered,
    {
        self.watched_files_registered
    }

    /// Whether the server waits for an answer to its request to be told of changed files.
    pub fn watched_files_registration_pending(&self) -> (r: bool)
        ensures
            r == self@.pending_registration is Some,
    {
        self.pending_watched_files_registration.is_some()
    }

    /// Whether there is a number left for a request.
    pub fn can_send_request(&self) -> (r: bool)
        ensures
            r == (self@.next_request_id < i32::MAX),
    {
        self.next_request_id < i32::MAX
    }

    /// The number of the next request of the server.
    fn take_request_id(&mut self) -> (id: i32)
        requires
            old(self).wf(),
            old(self)@.next_request_id < i32::MAX,
        ensures
            final(self).wf(),
            id == old(self)@.next_request_id,
            final(self)@ == (ServerView {
                next_request_id: (old(self)@.next_request_id + 1) as i32,
                ..old(self)@
            }),
    {
        let id: i32 = self.next_request_id;
        self.next_request_id = self.next_request_id + 1;
        id
    }

    /// The patterns of the files of the language, given the addresses of the roots.
    fn workspace_file_watchers(&self, bases: Vec<Option<String>>) -> (watchers: Vec<
        FileSystemWatcher,
    >)
        ensures
            watcher_views(watchers@) == watchers_for(
                self@.relative_patterns,
                option_texts(bases@),
            ),
    {
        let mut watchers: Vec<FileSystemWatcher> = Vec::new();
        if self.supports_relative_watch_patterns() && bases.len() > 0 {
            let kept = keep_present(bases);
            let ghost urls = texts(kept@);
            let mut k: usize = 0;
            while k < kept.len()
                invariant
                    k <= kept@.len(),
                    urls == texts(kept@),
                    watchers@.len() == k,
                    forall|j: int|
                        0 <= j < k ==> (#[trigger] watchers@[j])@ == (WatcherView {
                            base_url: Some(urls[j]),
                            pattern: "**/*.scad"@,
                        }),
                decreases kept@.len() - k,
            {
                watchers.push(
                    FileSystemWatcher {
                        base_url: Some(kept[k].clone()),
                        pattern: "**/*.scad".to_owned(),
                    },
                );
                k += 1;
            }
            assert(watcher_views(watchers@) =~= urls.map_values(
                |base: Seq<char>| WatcherView { base_url: Some(base), pattern: "**/*.scad"@ },
            ));
        } else {
            let watcher = FileSystemWatcher { base_url: None, pattern: "**/*.scad".to_owned() };
            watchers.push(watcher);
            assert(watcher_views(watchers@) =~= seq![watcher@]);
        }
        watchers
    }

    /// Asks to be told of changed files, given the addresses of the roots of the workspace.
    pub fn register_watchers(&mut self, bases: Vec<Option<String>>) -> (request: Option<
        WatchRequest,
    >)
        requires
            old(self).wf(),
            old(self)@.next_request_id < i32::MAX,
        ensures
            final(self).wf(),
            ({
                let (after, asked) = registered(old(self)@, option_texts(bases@));
                after == final(self)@ && match request {
                    Some(request) => asked == Some(request@),
                    None => asked is None,
                }
            }),
    {
        if !self.supports_dynamic_watched_files_registration() || self.watched_files_registered()
            || self.watched_files_registration_pending() {
            return None;
        }
        let watchers = self.workspace_file_watchers(bases);
        assert(watcher_views(watchers@).len() == watchers@.len());
        if watchers.len() == 0 {
            return None;
        }
        let id: i32 = self.take_request_id();
        self.pending_watched_files_registration = Some(id);
        Some(
            WatchRequest {
                id,
                method: "client/registerCapability".to_owned(),
                registration_id: "openscad-lsp-watch-scad".to_owned(),
                registration_method: "workspace/didChangeWatchedFiles".to_owned(),
                watchers,
            },
        )
    }

    /// Asks to be told of changed files once the client is ready. Which roots have addresses is up
    /// to the operating system; whatever they are, the server asks as [`registered`] says.
    pub fn handle_initialized(&mut self) -> (request: Option<WatchRequest>)
        requires
            old(self).wf(),
            old(self)@.next_request_id < i32::MAX,
        ensures
            final(self).wf(),
            exists|bases: Seq<Option<Seq<char>>>|
                bases.len() == old(self)@.workspace_roots.len() && (forall|k: int|
                    0 <= k < bases.len() ==> fits_base(
                        old(self)@.workspace_roots[k],
                        #[trigger] bases[k],
                    )) && {
                    let (after, asked) = #[trigger] registered(old(self)@, bases);
                    after == final(self)@ && match request {
                        Some(request) => asked == Some(request@),
                        None => asked is None,
                    }
                },
    {
        let mut bases: Vec<Option<String>> = Vec::new();
        let mut k: usize = 0;
        while k < self.workspace_roots.len()
            invariant
                k <= self.workspace_roots@.len(),
                *self == *old(self),
                bases@.len() == k,
                forall|j: int|
                    0 <= j < k ==> fits_base(
                        self.workspace_roots@[j]@,
                        text_of(#[trigger] bases@[j]),
                    ),
            decreases self.workspace_roots@.len() - k,
        {
            bases.push(root_base(&self.workspace_roots[k]));
            k += 1;
        }
        let ghost urls = option_texts(bases@);
        let ghost before = self@;
        proof {
            assert forall|k: int| 0 <= k < urls.len() implies fits_base(
                before.workspace_roots[k],
                #[trigger] urls[k],
            ) by {
                assert(urls[k] == text_of(bases@[k]));
            }
        }
        let request = self.register_watchers(bases);
        proof {
            let (after, asked) = registered(before, urls);
            assert(after == self@);
        }
        request
    }

    /// Deals with an answer of the client.
    pub fn handle_client_response(&mut self, id: ResponseId, failed: bool) -> (outcome:
        ResponseOutcome)
        requires
            old(self).wf(),
        ensures
            final(self).wf(),
            ({
                let expected = match id {
                    ResponseId::Number(n) => old(self)@.pending_registration == Some(n),
                    ResponseId::Text(_) => false,
                };
                if expected {
                    &&& outcome == (if failed {
                        ResponseOutcome::Refused
                    } else {
                        ResponseOutcome::Registered
                    })
                    &&& final(self)@ == (ServerView {
                        pending_registration: None,
                        watched_files_registered: !failed,
                        ..old(self)@
                    })
                } else {
                    outcome == ResponseOutcome::Unknown && final(self)@ == old(self)@
                }
            }),
    {
        match (id, self.pending_watched_files_registration) {
            (ResponseId::Number(n), Some(pending)) => if n == pending {
                self.pending_watched_files_registration = None;
                self.watched_files_registered = !failed;
                if failed {
                    ResponseOutcome::Refused
                } else {
                    ResponseOutcome::Registered
                }
            } else {
                ResponseOutcome::Unknown
            },
            _ => ResponseOutcome::Unknown,
        }
    }

    /// Looks at the files that belong into the index and are not in it.
    pub fn ensure_workspace_index(&mut self, env: &Environment, scanned: Vec<String>)
        requires
            old(self).wf(),
        ensures
            final(self).wf(),
            final(self)@ == (ServerView {
                known: ensured(old(self)@.settings, env@, old(self)@.known, texts(scanned@)),
                ..old(self)@
            }),
    {
        ensure_workspace_index(
            &mut self.codes,
            &mut self.workspace_index,
            &self.settings,
            env,
            scanned,
        );
    }

    /// Takes a document from the client.
    pub fn handle_did_open_text_document(&mut self, env: &Environment, url: String, text: String)
        requires
            old(self).wf(),
        ensures
            final(self).wf(),
            final(self)@ == (ServerView {
                open_documents: old(self)@.open_documents.insert(url@),
                known: refreshed_for(
                    old(self)@.settings,
                    env@,
                    with_store(
                        old(self)@.known,
                        with_code(old(self)@.known.store, url@, text@),
                    ),
                    url@,
                ),
                ..old(self)@
            }),
    {
        self.open_documents.insert(url.clone());
        self.codes.insert_code(url.clone(), text);
        refresh_workspace_index_for_url(
            &mut self.codes,
            &mut self.workspace_index,
            &self.settings,
            env,
            url.as_str(),
        );
    }

    /// Takes changes of a document from the client and says what is wrong with it then; nothing
    /// where the document is not held.
    pub fn handle_did_change_text_document(
        &mut self,
        env: &Environment,
        url: &str,
        changes: &Vec<TextChange>,
    ) -> (found: Option<Vec<Diagnostic>>)
        requires
            old(self).wf(),
        ensures
            final(self).wf(),
            match lookup(old(self)@.known.store, url@) {
                None => found is None && final(self)@ == old(self)@,
                Some(doc) => {
                    let now = doc.with_code(
                        edited_code(doc.code, changes@, changes@.len() as int),
                    );
                    let store = refreshed(
                        with_document(old(self)@.known.store, url@, now),
                        url@,
                    );
                    &&& found is Some
                    &&& diagnostic_views(found->0@) == edit_findings(now, env@, changes@)
                    &&& final(self)@ == (ServerView {
                        known: refreshed_for(
                            old(self)@.settings,
                            env@,
                            with_store(old(self)@.known, store),
                            url@,
                        ),
                        ..old(self)@
                    })
                },
            },
    {
        let ghost before = self@.known.store;
        proof {
            lemma_find(before, url@);
            self.codes.lemma_wf();
        }
        if !self.codes.edit(url, changes) {
            return None;
        }
        proof {
            let doc = lookup(before, url@)->0;
            let now = doc.with_code(edited_code(doc.code, changes@, changes@.len() as int));
            lemma_refreshed_lookup(before, url@, now);
        }
        let found: Vec<Diagnostic> = match self.codes.get(url) {
            Some(doc) => edit_diagnostics(doc, env, changes),
            None => Vec::new(),
        };
        refresh_workspace_index_for_url(
            &mut self.codes,
            &mut self.workspace_index,
            &self.settings,
            env,
            url,
        );
        Some(found)
    }

    /// The text that a document that is held would have after changes.
    pub fn preview(&self, url: &str, changes: &Vec<TextChange>) -> (text: Option<String>)
        requires
            self.wf(),
        ensures
            text_of(text) == (match lookup(self@.known.store, url@) {
                Some(doc) => Some(edited_code(doc.code, changes@, changes@.len() as int)),
                None => None,
            }),
    {
        match self.codes.get(url) {
            Some(doc) => {
                let mut copy = doc.copy();
                copy.edit(changes);
                Some(copy.code)
            },
            None => None,
        }
    }

    /// Deals with a document that the client closed: what is on disk counts again.
    pub fn handle_did_close_text_document(&mut self, env: &Environment, url: &str)
        requires
            old(self).wf(),
        ensures
            final(self).wf(),
            final(self)@ == (ServerView {
                open_documents: old(self)@.open_documents.remove(url@),
                known: refreshed_for(
                    old(self)@.settings,
                    env@,
                    with_store(
                        old(self)@.known,
                        if env@.read(url@) is Some {
                            with_reread(old(self)@.known.store, url@, env@)
                        } else {
                            without(old(self)@.known.store, url@)
                        },
                    ),
                    url@,
                ),
                ..old(self)@
            }),
    {
        self.open_documents.remove(url);
        if !self.codes.read_and_cache(url, env) {
            self.codes.remove(url);
        }
        refresh_workspace_index_for_url(
            &mut self.codes,
            &mut self.workspace_index,
            &self.settings,
            env,
            url,
        );
    }

    /// Deals with a document that the client saved: nothing changes.
    pub fn handle_did_save_text_document(&mut self)
        requires
            old(self).wf(),
        ensures
            *final(self) == *old(self),
    {
    }

    /// Takes over what the client set. What was found so far is out of date then.
    pub fn handle_did_change_config(&mut self, configuration: Configuration)
        requires
            old(self).wf(),
        ensures
            final(self).wf(),
            final(self)@ == (ServerView {
                library_locations: with_new(
                    old(self)@.library_locations,
                    texts(configuration.libraries@),
                ),
                include_default_params: match configuration.default_param {
                    Some(shown) => shown,
                    None => old(self)@.include_default_params,
                },
                indent: chosen_indent(text_of(configuration.indent)),
                fmt_query: text_of(configuration.fmt_query),
                known: KnowledgeView {
                    store: all_changed(old(self)@.known.store),
                    index: IndexView::empty(),
                },
                ..old(self)@
            }),
    {
        add_new(&mut self.library_locations, configuration.libraries);
        match configuration.default_param {
            Some(include_default_params) => {
                self.include_default_params = include_default_params;
            },
            None => {},
        }
        self.indent =
        match configuration.indent {
            Some(indent) => if indent.as_str().unicode_len() == 0 {
                "  ".to_owned()
            } else {
                indent
            },
            None => "  ".to_owned(),
        };
        self.fmt_query = configuration.fmt_query;
        self.codes.mark_all_changed();
        self.workspace_index.clear();
        proof {
            law_empty_index_is_consistent();
        }
    }

    /// Whether a file is one of the language, and not that of what the language itself knows.
    fn is_watched_scad_file(&self, event: &FileEvent) -> (r: bool)
        ensures
            r == event@.watched(self@.settings.builtin_url),
    {
        if same_text(event.url.as_str(), self.settings.builtin_url.as_str()) {
            return false;
        }
        match &event.extension {
            Some(extension) => is_scad_extension(extension.as_str()),
            None => false,
        }
    }

    /// Deals with one file to which something happened.
    fn apply_event(
        &mut self,
        env: &Environment,
        event: &FileEvent,
        changed: &mut Vec<String>,
        needs_rebuild: bool,
    ) -> (rebuild: bool)
        requires
            old(self).wf(),
        ensures
            final(self).wf(),
            ({
                let now = event_step(
                    old(self)@.settings,
                    env@,
                    old(self)@.open_documents,
                    EventsView {
                        known: old(self)@.known,
                        changed: texts(old(changed)@),
                        needs_rebuild,
                    },
                    event@,
                );
                &&& final(self)@ == (ServerView { known: now.known, ..old(self)@ })
                &&& texts(final(changed)@) == now.changed
                &&& rebuild == now.needs_rebuild
            }),
    {
        let url: &str = event.url.as_str();
        if !self.is_watched_scad_file(event) || self.open_documents.contains(url) {
            return needs_rebuild;
        }
        match event.change {
            FileChange::Changed => {
                let is_known: bool = self.workspace_index.contains_file(url)
                    || self.codes.contains(url);
                if is_known {
                    if self.codes.read_and_cache(url, env) {
                        let mut more: Vec<String> = Vec::new();
                        more.push(event.url.clone());
                        assert(texts(more@) =~= seq![url@]);
                        add_new(changed, more);
                        needs_rebuild
                    } else {
                        self.codes.remove(url);
                        true
                    }
                } else {
                    self.codes.remove(url);
                    self.codes.read_and_cache(url, env);
                    true
                }
            },
            FileChange::Created => {
                self.codes.remove(url);
                self.codes.read_and_cache(url, env);
                true
            },
            FileChange::Deleted => {
                self.codes.remove(url);
                true
            },
            FileChange::Other => needs_rebuild,
        }
    }

    /// Deals with what happened to files, given the ends of their names.
    pub fn apply_file_events(
        &mut self,
        env: &Environment,
        events: &Vec<FileEvent>,
        scanned: Vec<String>,
    )
        requires
            old(self).wf(),
        ensures
            final(self).wf(),
            final(self)@ == (ServerView {
                known: files_changed(
                    old(self)@.settings,
                    env@,
                    old(self)@.open_documents,
                    old(self)@.known,
                    event_views(events@),
                    texts(scanned@),
                ),
                ..old(self)@
            }),
    {
        let ghost start = self@;
        let ghost views = event_views(events@);
        let mut changed: Vec<String> = Vec::new();
        let mut needs_rebuild: bool = false;
        assert(texts(changed@) =~= Seq::empty());
        let mut k: usize = 0;
        while k < events.len()
            invariant
                k <= events@.len(),
                self.wf(),
                views == event_views(events@),
                self@ == (ServerView { known: self@.known, ..start }),
                events_seen(
                    start.settings,
                    env@,
                    start.open_documents,
                    start.known,
                    views,
                    k as int,
                ) == (EventsView {
                    known: self@.known,
                    changed: texts(changed@),
                    needs_rebuild,
                }),
            decreases events@.len() - k,
        {
            assert(views[k as int] == events@[k as int]@);
            needs_rebuild = self.apply_event(env, &events[k], &mut changed, needs_rebuild);
            k += 1;
        }
        if needs_rebuild {
            rebuild_workspace_index(
                &mut self.codes,
                &mut self.workspace_index,
                &self.settings,
                env,
                scanned,
            );
            return;
        }
        let ghost known = self@.known;
        let ghost urls = texts(changed@);
        let mut j: usize = 0;
        while j < changed.len()
            invariant
                j <= changed@.len(),
                self.wf(),
                urls == texts(changed@),
                self@ == (ServerView { known: self@.known, ..start }),
                refreshed_all(start.settings, env@, known, urls, j as int) == self@.known,
            decreases changed@.len() - j,
        {
            assert(urls[j as int] == changed@[j as int]@);
            refresh_workspace_index_for_url(
                &mut self.codes,
                &mut self.workspace_index,
                &self.settings,
                env,
                changed[j].as_str(),
            );
            j += 1;
        }
    }

    /// Deals with what happened to files. What the ends of their names are is up to the operating
    /// system; whatever they are, the server does as [`files_changed`] says.
    pub fn handle_did_change_watched_files(
        &mut self,
        env: &Environment,
        changes: Vec<(String, FileChange)>,
        scanned: Vec<String>,
    )
        requires
            old(self).wf(),
        ensures
            final(self).wf(),
            exists|events: Seq<FileEventView>|
                events.len() == changes@.len() && (forall|k: int|
                    0 <= k < events.len() ==> (#[trigger] events[k]).url == changes@[k].0@
                        && events[k].change == changes@[k].1 && extension_fits(
                        changes@[k].0@,
                        events[k].extension,
                    )) && final(self)@ == (ServerView {
                    known: #[trigger] files_changed(
                        old(self)@.settings,
                        env@,
                        old(self)@.open_documents,
                        old(self)@.known,
                        events,
                        texts(scanned@),
                    ),
                    ..old(self)@
                }),
    {
        let mut events: Vec<FileEvent> = Vec::new();
        let mut k: usize = 0;
        while k < changes.len()
            invariant
                k <= changes@.len(),
                events@.len() == k,
                forall|j: int|
                    0 <= j < k ==> (#[trigger] events@[j]).url@ == changes@[j].0@
                        && events@[j].change == changes@[j].1 && extension_fits(
                        changes@[j].0@,
                        text_of(events@[j].extension),
                    ),
            decreases changes@.len() - k,
        {
            let url: String = changes[k].0.clone();
            let extension = url_extension(url.as_str());
            events.push(FileEvent { url, change: changes[k].1, extension });
            k += 1;
        }
        let ghost views = event_views(events@);
        let ghost before = self@;
        self.apply_file_events(env, &events, scanned);
        proof {
            assert forall|k: int| 0 <= k < views.len() implies (#[trigger] views[k]).url
                == changes@[k].0@ && views[k].change == changes@[k].1 && extension_fits(
                changes@[k].0@,
                views[k].extension,
            ) by {
                assert(views[k] == events@[k]@);
            }
            assert(self@ == (ServerView {
                known: files_changed(
                    before.settings,
                    env@,
                    before.open_documents,
                    before.known,
                    views,
                    texts(scanned@),
                ),
                ..before
            }));
        }
    }
}

impl Server {
    /// The addresses of the documents that are held, the oldest first.
    pub fn held_documents(&self) -> (urls: Vec<String>)
        requires
            self.wf(),
        ensures
            texts(urls@) == held_urls(self@.known.store),
    {
        self.codes.keys()
    }

    /// The files that a request may need besides those that it names.
    fn needed_files(&self, needed: &Vec<String>) -> (urls: Vec<String>)
        requires
            self.wf(),
        ensures
            texts(urls@) == needed_files(self@, texts(needed@)),
    {
        let ghost store = self@.known.store;
        let ghost first = texts(needed@);
        let mut urls = clone_texts(needed);
        let keys = self.codes.keys();
        assert(texts(urls@) =~= first + followed(store, 0));
        let mut k: usize = 0;
        while k < keys.len()
            invariant
                k <= keys@.len(),
                self.wf(),
                store == self@.known.store,
                texts(keys@) == held_urls(store),
                texts(urls@) == first + followed(store, k as int),
            decreases keys@.len() - k,
        {
            let ghost before = texts(urls@);
            proof {
                self.codes.lemma_wf();
                assert(texts(keys@)[k as int] == keys@[k as int]@);
                assert(texts(keys@).len() == keys@.len() && held_urls(store).len() == store.len());
                assert(store[k as int].0 == keys@[k as int]@);
                lemma_find_unique(store, k as int);
            }
            match self.codes.get(keys[k].as_str()) {
                Some(doc) => {
                    match &doc.includes {
                        Some(includes) => append_texts(&mut urls, includes),
                        None => {},
                    }
                    assert(texts(urls@) =~= before + listed(doc@.includes));
                    match &doc.uses {
                        Some(uses) => append_texts(&mut urls, uses),
                        None => {},
                    }
                    assert(texts(urls@) =~= before + listed(doc@.includes) + listed(doc@.uses));
                    assert(texts(urls@) =~= first + followed(store, k + 1));
                },
                None => {},
            }
            k += 1;
        }
        let ghost before = texts(urls@);
        urls.push(self.settings.builtin_url.clone());
        assert(texts(urls@) =~= before.push(self@.settings.builtin_url));
        urls
    }

    /// Starts to gather what a request may need of the files outside: where the paths of the
    /// documents that are held lead, the files of one list, and those that are not held of
    /// another, together with those that these documents lead to and that of what the language
    /// itself knows.
    pub fn gather(&self, read_again: &Vec<String>, needed: &Vec<String>) -> (gathering: Gathering)
        requires
            self.wf(),
        ensures
            gathering.wf(),
            gathering@.held == held_urls(self@.known.store).to_set(),
            gathering@.libraries == self@.library_locations,
            gathering@.sources == held_sources(self@.known.store),
            gathering@.wanted == texts(read_again@).to_set().union(
                needed_files(self@, texts(needed@)).to_set().difference(
                    held_urls(self@.known.store).to_set(),
                ),
            ),
    {
        let needed = self.needed_files(needed);
        let keys = self.codes.keys();
        let ghost urls = texts(keys@);
        let mut gathering = Gathering::new(clone_texts(&keys), clone_texts(&self.library_locations));
        let ghost store = self@.known.store;
        let ghost sources = held_sources(store);
        assert(sources.take(0) =~= Seq::empty());
        let mut k: usize = 0;
        while k < keys.len()
            invariant
                k <= keys@.len(),
                self.wf(),
                store == self@.known.store,
                urls == texts(keys@),
                urls == held_urls(store),
                sources == held_sources(store),
                gathering.wf(),
                gathering@.held == urls.to_set(),
                gathering@.libraries == self@.library_locations,
                gathering@.wanted == Set::<Seq<char>>::empty(),
                gathering@.sources == sources.take(k as int),
            decreases keys@.len() - k,
        {
            proof {
                self.codes.lemma_wf();
                assert(urls[k as int] == keys@[k as int]@);
                assert(urls.len() == keys@.len() && held_urls(store).len() == store.len());
                assert(store[k as int].0 == urls[k as int]);
                lemma_find_unique(store, k as int);
            }
            match self.codes.get(keys[k].as_str()) {
                Some(doc) => gathering.add_document(doc),
                None => {},
            }
            assert(sources.take(k + 1) =~= sources.take(k as int).push(sources[k as int]));
            k += 1;
        }
        assert(sources.take(keys@.len() as int) =~= sources);
        let ghost first = texts(read_again@);
        assert(first.take(0).to_set() =~= Set::empty());
        k = 0;
        while k < read_again.len()
            invariant
                k <= read_again@.len(),
                first == texts(read_again@),
                gathering.wf(),
                gathering@.held == urls.to_set(),
                gathering@.libraries == self@.library_locations,
                gathering@.sources == sources,
                gathering@.wanted == first.take(k as int).to_set(),
            decreases read_again@.len() - k,
        {
            proof {
                assert(first.take(k + 1) =~= first.take(k as int).push(read_again@[k as int]@));
                lemma_push_to_set(first.take(k as int), read_again@[k as int]@);
            }
            gathering.ask_for(read_again[k].as_str());
            k += 1;
        }
        assert(first.take(read_again@.len() as int) =~= first);
        let ghost second = texts(needed@);
        let ghost known = urls.to_set();
        assert(first.to_set() =~= first.to_set().union(
            second.take(0).to_set().difference(known),
        ));
        k = 0;
        while k < needed.len()
            invariant
                k <= needed@.len(),
                second == texts(needed@),
                known == urls.to_set(),
                gathering.wf(),
                gathering@.held == known,
                gathering@.libraries == self@.library_locations,
                gathering@.sources == sources,
                gathering@.wanted == first.to_set().union(
                    second.take(k as int).to_set().difference(known),
                ),
            decreases needed@.len() - k,
        {
            let ghost here = needed@[k as int]@;
            proof {
                assert(second.take(k + 1) =~= second.take(k as int).push(here));
                lemma_push_to_set(second.take(k as int), here);
            }
            gathering.ask_for_unless_held(needed[k].as_str());
            assert(gathering@.wanted =~= first.to_set().union(
                second.take(k + 1).to_set().difference(known),
            ));
            k += 1;
        }
        assert(second.take(needed@.len() as int) =~= second);
        gathering
    }

    /// A document, up to date; none where it cannot be read.
    pub fn get_code(&mut self, env: &Environment, url: &str) -> (doc: Option<ParsedCode>)
        requires
            old(self).wf(),
        ensures
            final(self).wf(),
            final(self)@ == (ServerView {
                known: with_store(
                    old(self)@.known,
                    with_opened(old(self)@.known.store, url@, env@),
                ),
                ..old(self)@
            }),
            match doc {
                Some(doc) => opened(old(self)@.known.store, url@, env@) == Some(doc@) && doc@.wf()
                    && doc@.url == url@,
                None => opened(old(self)@.known.store, url@, env@) is None,
            },
    {
        open_document(&mut self.codes, url, env)
    }

    /// Searches for names from a node of a document on.
    pub fn find_identities(
        &mut self,
        env: &Environment,
        doc: &ParsedCode,
        filter: &NameFilter,
        start: usize,
        findall: bool,
    ) -> (items: Vec<Item>)
        requires
            old(self).wf(),
            doc@.tree.wf(),
            doc@.tree.has(start as int),
        ensures
            final(self).wf(),
            ({
                let (store, found) = old(self)@.settings.find(
                    env@,
                    old(self)@.known.store,
                    doc@,
                    filter@,
                    start as int,
                    findall,
                );
                &&& final(self)@ == (ServerView {
                    known: with_store(old(self)@.known, store),
                    ..old(self)@
                })
                &&& item_views(items@) == found
            }),
    {
        find_identities(&mut self.codes, &self.settings, env, doc, filter, start, findall)
    }

    /// What the index says that the identifier at a range of a file stands for.
    pub fn symbol_at(&self, url: &str, range: &Range) -> (symbol: Option<ResolvedSymbol>)
        requires
            self.wf(),
        ensures
            match symbol {
                Some(symbol) => self@.known.index.symbol_at(url@, *range) == Some(symbol@),
                None => self@.known.index.symbol_at(url@, *range) is None,
            },
    {
        self.workspace_index.symbol_at(url, range)
    }

    /// The places at which a symbol is named.
    pub fn references_for(&self, symbol: &SymbolKey) -> (occurrences: Vec<Occurrence>)
        requires
            self.wf(),
        ensures
            occurrence_views(occurrences@) == (self@.known.index.refs)(symbol@),
    {
        self.workspace_index.references_for(symbol)
    }

    /// What is shown of the identifier at a position; no answer where the document cannot be read.
    pub fn handle_hover(&mut self, env: &Environment, url: &str, position: Position) -> (answer:
        Option<Option<String>>)
        requires
            old(self).wf(),
        ensures
            final(self).wf(),
            ({
                let (store, shown) = hovered(
                    old(self)@.settings,
                    env@,
                    old(self)@.known.store,
                    url@,
                    position,
                );
                &&& final(self)@ == (ServerView {
                    known: with_store(old(self)@.known, store),
                    ..old(self)@
                })
                &&& match answer {
                    Some(answer) => shown == Some(text_of(answer)),
                    None => shown is None,
                }
            }),
    {
        handle_hover(&mut self.codes, &self.settings, env, url, position)
    }

    /// Where what stands at a position is defined; no answer where the document cannot be read.
    pub fn handle_definition(&mut self, env: &Environment, url: &str, position: Position) -> (answer:
        Option<Option<Vec<Location>>>)
        requires
            old(self).wf(),
        ensures
            final(self).wf(),
            ({
                let (store, places) = defined(
                    old(self)@.settings,
                    env@,
                    old(self)@.known.store,
                    url@,
                    position,
                );
                &&& final(self)@ == (ServerView {
                    known: with_store(old(self)@.known, store),
                    ..old(self)@
                })
                &&& match answer {
                    Some(Some(answer)) => places == Some(Some(location_views(answer@))),
                    Some(None) => places == Some(None::<Seq<LocationView>>),
                    None => places is None,
                }
            }),
    {
        handle_definition(&mut self.codes, &self.settings, env, url, position)
    }

    /// What is offered at a position; no answer where the document cannot be read.
    pub fn handle_completion(&mut self, env: &Environment, url: &str, position: Position) -> (answer:
        Option<Completion>)
        requires
            old(self).wf(),
        ensures
            final(self).wf(),
            ({
                let (store, offered) = completed(
                    old(self)@.settings,
                    env@,
                    old(self)@.known.store,
                    url@,
                    position,
                    old(self)@.include_default_params,
                );
                &&& final(self)@ == (ServerView {
                    known: with_store(old(self)@.known, store),
                    ..old(self)@
                })
                &&& match answer {
                    Some(answer) => offered == Some(answer@),
                    None => offered is None,
                }
            }),
    {
        let defaults: bool = self.include_default_params;
        handle_completion(&mut self.codes, &self.settings, env, url, position, defaults)
    }

    /// What a document declares at its top level; no answer where it cannot be read.
    pub fn handle_document_symbols(&mut self, env: &Environment, url: &str) -> (answer: Option<
        Vec<SymbolInformation>,
    >)
        requires
            old(self).wf(),
        ensures
            final(self).wf(),
            final(self)@ == (ServerView {
                known: with_store(
                    old(self)@.known,
                    with_opened(old(self)@.known.store, url@, env@),
                ),
                ..old(self)@
            }),
            match answer {
                Some(answer) => document_symbols(env@, old(self)@.known.store, url@) == Some(
                    symbol_views(answer@),
                ),
                None => document_symbols(env@, old(self)@.known.store, url@) is None,
            },
    {
        handle_document_symbols(&mut self.codes, env, url)
    }

    /// The document that is to be laid out anew; none where it cannot be read. What was found at
    /// its top level is left as it is.
    pub fn formatting_source(&mut self, env: &Environment, url: &str) -> (doc: Option<ParsedCode>)
        requires
            old(self).wf(),
        ensures
            final(self).wf(),
            final(self)@ == (ServerView {
                known: with_store(
                    old(self)@.known,
                    with_loaded(old(self)@.known.store, url@, env@),
                ),
                ..old(self)@
            }),
            match doc {
                Some(doc) => lookup(final(self)@.known.store, url@) == Some(doc@) && doc@.wf(),
                None => lookup(final(self)@.known.store, url@) is None,
            },
    {
        self.codes.load(url, env);
        match self.codes.get(url) {
            Some(doc) => Some(doc.copy()),
            None => None,
        }
    }

    /// What a request to rename finds at a position.
    pub fn lookup_rename_symbol(
        &mut self,
        env: &Environment,
        url: &str,
        position: Position,
        scanned: Vec<String>,
    ) -> (found: Option<RenameLookup>)
        requires
            old(self).wf(),
        ensures
            final(self).wf(),
            ({
                let (known, lookup) = rename_lookup(
                    old(self)@.settings,
                    env@,
                    old(self)@.known,
                    url@,
                    position,
                    texts(scanned@),
                );
                &&& final(self)@ == (ServerView { known, ..old(self)@ })
                &&& match found {
                    Some(found) => lookup == Some(found@),
                    None => lookup is None,
                }
            }),
    {
        lookup_rename_symbol(
            &mut self.codes,
            &mut self.workspace_index,
            &self.settings,
            env,
            url,
            position,
            scanned,
        )
    }

    /// The edits that give a symbol another name everywhere; none where it is named nowhere.
    pub fn build_rename_workspace_edit(&self, symbol: &SymbolKey, new_name: &str) -> (edits: Option<
        Vec<FileEdits>,
    >)
        requires
            self.wf(),
        ensures
            match edits {
                Some(edits) => rename_edits((self@.known.index.refs)(symbol@), new_name@) == Some(
                    file_edit_views(edits@),
                ),
                None => rename_edits((self@.known.index.refs)(symbol@), new_name@) is None,
            },
    {
        build_rename_workspace_edit(&self.workspace_index, symbol, new_name)
    }

    /// Answers the question whether what stands at a position can be renamed; no answer where the
    /// document cannot be read.
    pub fn handle_prepare_rename(
        &mut self,
        env: &Environment,
        url: &str,
        position: Position,
        scanned: Vec<String>,
    ) -> (reply: Option<RenameReply>)
        requires
            old(self).wf(),
        ensures
            final(self).wf(),
            ({
                let (known, lookup) = rename_lookup(
                    old(self)@.settings,
                    env@,
                    old(self)@.known,
                    url@,
                    position,
                    texts(scanned@),
                );
                &&& final(self)@ == (ServerView { known, ..old(self)@ })
                &&& match (reply, lookup) {
                    (Some(reply), Some(lookup)) => reply@ == prepare_reply(lookup),
                    (None, None) => true,
                    _ => false,
                }
            }),
    {
        handle_prepare_rename(
            &mut self.codes,
            &mut self.workspace_index,
            &self.settings,
            env,
            url,
            position,
            scanned,
        )
    }

    /// Renames what stands at a position; no answer where the document cannot be read.
    pub fn handle_rename(
        &mut self,
        env: &Environment,
        url: &str,
        position: Position,
        new_name: &str,
        scanned: Vec<String>,
    ) -> (reply: Option<RenameReply>)
        requires
            old(self).wf(),
        ensures
            final(self).wf(),
            ({
                let (known, lookup) = rename_lookup(
                    old(self)@.settings,
                    env@,
                    old(self)@.known,
                    url@,
                    position,
                    texts(scanned@),
                );
                &&& final(self)@ == (ServerView { known, ..old(self)@ })
                &&& match (reply, lookup) {
                    (Some(reply), Some(lookup)) => reply@ == rename_reply(
                        lookup,
                        known.index.refs,
                        new_name@,
                    ),
                    (None, None) => true,
                    _ => false,
                }
            }),
    {
        handle_rename(
            &mut self.codes,
            &mut self.workspace_index,
            &self.settings,
            env,
            url,
            position,
            new_name,
            scanned,
        )
    }
}

/// A document that was replaced and put at the end is found.
pub(crate) proof fn lemma_refreshed_lookup(store: StoreView, url: Seq<char>, doc: DocView)
    requires
        unique_keys(store),
        find(store, url) is Some,
    ensures
        lookup(refreshed(with_document(store, url, doc), url), url) == Some(doc),
{
    lemma_find(store, url);
    let k = find(store, url)->0;
    let replaced = with_document(store, url, doc);
    assert(replaced[k] == (url, doc));
    assert forall|i: int, j: int| 0 <= i < j < replaced.len() implies (#[trigger] replaced[i]).0 != (
    #[trigger] replaced[j]).0 by {
        assert(store[i].0 != store[j].0);
    }
    lemma_find_unique(replaced, k);
    lemma_without(replaced, url);
    let rest = without(replaced, url);
    let now = refreshed(replaced, url);
    assert(now =~= rest.push((url, doc)));
    lemma_find(now, url);
    assert(now[rest.len() as int] == (url, doc));
    if let Some(i) = find(now, url) {
        if i < rest.len() {
            assert(rest[i].0 != url);
        }
    }
}

} // verus!
