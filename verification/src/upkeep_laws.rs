use vstd::prelude::*;

use crate::analysis::{analyzed, opened, reindexed, with_opened, KnowledgeView};
use crate::cursor::lemma_filter_from;
use crate::environment::EnvView;
use crate::indexing::{
    ensured, lemma_belongs, missing_urls, rebuilt, refreshed_for, seed_urls, sorted_set,
};
use crate::lists::lemma_filter_keeps;
use crate::locations::with_new;
use crate::parse_code::{edited_code, DocView, TextChange};
use crate::position::Position;
use crate::rename::{rename_lookup, LookupView};
use crate::resolve::SettingsView;
use crate::roots::present;
use crate::scan::FilterView;
use crate::server::{
    event_step, events_seen, files_changed, lemma_refreshed_lookup, registered, EventsView,
    FileChange, FileEventView, ServerView,
};
use crate::sorting::{ascending, law_ascending_is_unique, law_sorting, sorted_texts};
use crate::store::{
    all_changed, find, lemma_find, lemma_find_unique, lemma_moved, lemma_without, lookup, moved,
    refreshed, unique_keys, with_document, without, StoreView,
};
use crate::store_laws::{
    law_a_new_document_is_held, law_reindexing_covers_readable_files, law_reindexing_leaves_others,
};
use crate::symbols::ResolvedView;
use crate::syntax::Tree;
use crate::workspace_index::{all_dependents, chain, IndexView};

verus! {

/// Whether what an index says of a file is what a look at it finds, with some documents held.
pub open spec fn looked_at(
    settings: SettingsView,
    env: EnvView,
    index: IndexView,
    url: Seq<char>,
) -> bool {
    index.files.contains_key(url) ==> exists|held: StoreView| (#[trigger] analyzed(
        settings,
        env,
        held,
        url,
    )).1 == Some(index.files[url])
}

/// Each file of a list is looked at when the files of the list are looked at again.
proof fn lemma_each_looked_at(
    settings: SettingsView,
    env: EnvView,
    known: KnowledgeView,
    urls: Seq<Seq<char>>,
    k: int,
    i: int,
)
    requires
        0 <= i < k <= urls.len(),
    ensures
        looked_at(settings, env, reindexed(settings, env, known, urls, k).index, urls[i]),
    decreases k,
{
    let before = reindexed(settings, env, known, urls, k - 1);
    let now = reindexed(settings, env, known, urls, k);
    let (store, analysis) = analyzed(settings, env, before.store, urls[k - 1]);
    if urls[i] == urls[k - 1] {
        if now.index.files.contains_key(urls[i]) {
            assert(analyzed(settings, env, before.store, urls[i]).1 == Some(
                now.index.files[urls[i]],
            ));
        }
    } else {
        lemma_each_looked_at(settings, env, known, urls, k - 1, i);
        if now.index.files.contains_key(urls[i]) {
            assert(before.index.files.contains_key(urls[i]));
            let held = choose|held: StoreView| (#[trigger] analyzed(
                settings,
                env,
                held,
                urls[i],
            )).1 == Some(before.index.files[urls[i]]);
            assert(analyzed(settings, env, held, urls[i]).1 == Some(now.index.files[urls[i]]));
        }
    }
}

/// Once the index was asked for, it covers the workspace: each file that the workspace was found
/// to hold, and each document that is held other than what the language itself knows, is in it, if
/// it can be read. What was in it stays, and what was not is looked at.
pub proof fn law_the_index_covers_the_workspace(
    settings: SettingsView,
    env: EnvView,
    known: KnowledgeView,
    scanned: Seq<Seq<char>>,
    url: Seq<char>,
)
    ensures
        ({
            let now = ensured(settings, env, known, scanned).index;
            let belongs = scanned.contains(url) || (find(known.store, url) is Some && url
                != settings.builtin_url);
            &&& now.initialized
            &&& belongs && env.read(url) is Some ==> now.files.contains_key(url)
            &&& known.index.files.contains_key(url) ==> now.files.contains_key(url)
                && now.files[url] == known.index.files[url]
            &&& !known.index.files.contains_key(url) ==> looked_at(settings, env, now, url)
        }),
{
    let missing = missing_urls(settings, known, scanned);
    let urls = sorted_texts(missing);
    let n = urls.len() as int;
    law_sorting(missing);
    let now = reindexed(settings, env, known, urls, n).index;
    let absent = |u: Seq<char>| !known.index.files.contains_key(u);
    let seeds = seed_urls(known.store, settings.builtin_url, scanned);
    assert(missing == seeds.filter(absent));
    if known.index.files.contains_key(url) {
        assert forall|j: int| 0 <= j < n implies #[trigger] urls[j] != url by {
            assert(urls.to_set().contains(urls[j]));
            assert(missing.contains(urls[j]));
            lemma_filter_from(seeds, absent, urls[j]);
        }
        law_reindexing_leaves_others(settings, env, known, urls, n, url);
    } else {
        if urls.contains(url) {
            let i = choose|i: int| 0 <= i < n && urls[i] == url;
            lemma_each_looked_at(settings, env, known, urls, n, i);
            if env.read(url) is Some {
                law_reindexing_covers_readable_files(settings, env, known, urls, n, i);
            }
        } else {
            assert forall|j: int| 0 <= j < n implies #[trigger] urls[j] != url by {}
            law_reindexing_leaves_others(settings, env, known, urls, n, url);
        }
        let belongs = scanned.contains(url) || (find(known.store, url) is Some && url
            != settings.builtin_url);
        if belongs {
            lemma_belongs(settings.builtin_url, known.store, scanned, url);
            let k = choose|k: int| 0 <= k < seeds.len() && seeds[k] == url;
            lemma_filter_keeps(seeds, absent, k);
            assert(missing.to_set().contains(url));
            assert(urls.to_set().contains(url));
        }
        if looked_at(settings, env, now, url) && now.files.contains_key(url) {
            let held = choose|held: StoreView| (#[trigger] analyzed(settings, env, held, url)).1
                == Some(now.files[url]);
            assert(analyzed(settings, env, held, url).1 == Some(
                ensured(settings, env, known, scanned).index.files[url],
            ));
        }
    }
}

/// A look at all files from scratch leaves in the index only what was looked at, and all files of
/// the workspace that can be read.
pub proof fn law_rebuilding_covers_the_workspace(
    settings: SettingsView,
    env: EnvView,
    known: KnowledgeView,
    scanned: Seq<Seq<char>>,
    url: Seq<char>,
)
    ensures
        ({
            let now = rebuilt(settings, env, known, scanned).index;
            &&& now.initialized
            &&& looked_at(settings, env, now, url)
            &&& scanned.contains(url) && env.read(url) is Some ==> now.files.contains_key(url)
        }),
{
    let start = KnowledgeView { store: all_changed(known.store), index: IndexView::empty() };
    law_the_index_covers_the_workspace(settings, env, start, scanned, url);
}

/// Whether each file of a list depends on the one before it.
pub open spec fn follows(index: IndexView, path: Seq<Seq<char>>) -> bool {
    path.len() >= 1 && forall|k: int|
        0 <= k < path.len() - 1 ==> (index.dependents)(#[trigger] path[k]).contains(path[k + 1])
}

/// Whether a file is another, or depends on it, directly or through others.
pub open spec fn reaches(index: IndexView, from: Seq<char>, to: Seq<char>) -> bool {
    exists|path: Seq<Seq<char>>| #[trigger]
        follows(index, path) && path[0] == from && path.last() == to
}

/// When a file changes, it is looked at again, and so is every file that depends on it, directly
/// or through others; files that do not are left alone. An index that was not built stays as it
/// is.
pub proof fn law_dependents_are_looked_at_again(
    settings: SettingsView,
    env: EnvView,
    known: KnowledgeView,
    url: Seq<char>,
    files: Seq<Seq<char>>,
    other: Seq<char>,
)
    requires
        forall|file: Seq<char>| #[trigger]
            files.contains(file) == reaches(known.index, url, file),
    ensures
        ({
            let now = refreshed_for(settings, env, known, url);
            if !known.index.initialized {
                now == known
            } else if reaches(known.index, url, other) {
                &&& looked_at(settings, env, now.index, other)
                &&& env.read(other) is Some ==> now.index.files.contains_key(other)
            } else {
                &&& now.index.files.contains_key(other) == known.index.files.contains_key(other)
                &&& known.index.files.contains_key(other) ==> now.index.files[other]
                    == known.index.files[other]
            }
        }),
{
    if known.index.initialized {
        let set = all_dependents(known.index.dependents, url).insert(url);
        assert forall|file: Seq<char>| set.contains(file) == files.to_set().contains(file) by {
            lemma_reaches(known.index, url, file);
        }
        assert(set =~= files.to_set());
        law_sorting(files);
        assert(ascending(sorted_texts(files)) && sorted_texts(files).to_set() == set);
        let urls = sorted_set(set);
        assert(ascending(urls) && urls.to_set() == set);
        law_ascending_is_unique(urls, sorted_texts(files));
        let n = urls.len() as int;
        if reaches(known.index, url, other) {
            assert(files.contains(other));
            assert(urls.to_set().contains(other));
            let i = choose|i: int| 0 <= i < n && urls[i] == other;
            lemma_each_looked_at(settings, env, known, urls, n, i);
            if env.read(other) is Some {
                law_reindexing_covers_readable_files(settings, env, known, urls, n, i);
            }
        } else {
            assert forall|j: int| 0 <= j < n implies #[trigger] urls[j] != other by {
                assert(urls.to_set().contains(urls[j]));
                assert(files.contains(urls[j]));
            }
            law_reindexing_leaves_others(settings, env, known, urls, n, other);
        }
    }
}

/// The files that depend on a file, and the file itself, are those that are reached from it.
proof fn lemma_reaches(index: IndexView, url: Seq<char>, file: Seq<char>)
    ensures
        all_dependents(index.dependents, url).insert(url).contains(file) == reaches(
            index,
            url,
            file,
        ),
{
    if file == url {
        assert(follows(index, seq![url]));
    } else if all_dependents(index.dependents, url).contains(file) {
        let path = choose|path: Seq<Seq<char>>| #[trigger]
            chain(index.dependents, path) && path[0] == url && path.last() == file;
        assert(follows(index, path));
    } else if reaches(index, url, file) {
        let path = choose|path: Seq<Seq<char>>| #[trigger]
            follows(index, path) && path[0] == url && path.last() == file;
        assert(path.len() >= 2);
        assert(chain(index.dependents, path));
    }
}

/// Whether a file is one of the language: its name ends in `scad`, in small or capital letters.
pub open spec fn is_of_the_language(extension: Option<Seq<char>>) -> bool {
    let letter = |c: char, small: char, capital: char| c == small || c == capital;
    extension matches Some(text) && text.len() == 4 && letter(text[0], 's', 'S') && letter(
        text[1],
        'c',
        'C',
    ) && letter(text[2], 'a', 'A') && letter(text[3], 'd', 'D')
}

/// What happens to a file that is open in the client, or is none of the language, or is that of
/// what the language itself knows, does not matter. Else a file that is deleted is no longer held,
/// one that was created or changed has the text that is on disk, and one that came or went has all
/// files looked at from scratch; a change of a file that was known has just that looked at again.
pub proof fn law_what_happens_to_files(
    settings: SettingsView,
    env: EnvView,
    open: Set<Seq<char>>,
    state: EventsView,
    event: FileEventView,
)
    requires
        unique_keys(state.known.store),
    ensures
        ({
            let now = event_step(settings, env, open, state, event);
            let url = event.url;
            let matters = is_of_the_language(event.extension) && url != settings.builtin_url
                && !open.contains(url);
            let was_known = state.known.index.files.contains_key(url) || find(
                state.known.store,
                url,
            ) is Some;
            &&& !matters ==> now == state
            &&& now.known.index == state.known.index
            &&& state.needs_rebuild ==> now.needs_rebuild
            &&& matters && event.change == FileChange::Deleted ==> now.needs_rebuild && find(
                now.known.store,
                url,
            ) is None
            &&& matters && event.change == FileChange::Created ==> now.needs_rebuild && (env.read(
                url,
            ) matches Some(text) ==> (lookup(now.known.store, url) matches Some(doc) && doc.code
                == text))
            &&& matters && event.change == FileChange::Changed ==> match env.read(url) {
                Some(text) => {
                    &&& lookup(now.known.store, url) matches Some(doc) && doc.code == text
                    &&& was_known ==> now.changed.contains(url)
                    &&& !was_known ==> now.needs_rebuild
                },
                None => now.needs_rebuild && find(now.known.store, url) is None,
            }
        }),
{
    let store = state.known.store;
    let url = event.url;
    lemma_without(store, url);
    lemma_find(store, url);
    if let Some(text) = env.read(url) {
        law_a_new_document_is_held(store, url, text);
        law_a_new_document_is_held(without(store, url), url, text);
        let list = with_new(state.changed, seq![url]);
        assert(list.contains(url)) by {
            let one = seq![url];
            assert(one.drop_last() =~= Seq::empty());
            assert(with_new(state.changed, one.drop_last()) == state.changed);
            if !state.changed.contains(url) {
                assert(list == state.changed.push(url));
                assert(list[state.changed.len() as int] == url);
            }
        }
    }
}

/// Once a server has dealt with events that made files come or go, its index holds what a look at
/// the files finds, and covers all that the workspace was found to hold and that can be read.
pub proof fn law_events_bring_the_index_up_to_date(
    settings: SettingsView,
    env: EnvView,
    open: Set<Seq<char>>,
    known: KnowledgeView,
    events: Seq<FileEventView>,
    scanned: Seq<Seq<char>>,
    url: Seq<char>,
)
    requires
        events_seen(
            settings,
            env,
            open,
            known,
            events,
            events.len() as int,
        ).needs_rebuild,
    ensures
        ({
            let now = files_changed(settings, env, open, known, events, scanned).index;
            &&& looked_at(settings, env, now, url)
            &&& scanned.contains(url) && env.read(url) is Some ==> now.files.contains_key(url)
        }),
{
    let seen = events_seen(
        settings,
        env,
        open,
        known,
        events,
        events.len() as int,
    );
    law_rebuilding_covers_the_workspace(settings, env, seen.known, scanned, url);
}

/// A document that the client changed has the changed text, and its tree is that of the new text;
/// what is known of its top level is out of date. Other documents stay as they are.
pub proof fn law_a_changed_document_has_the_new_text(
    store: StoreView,
    url: Seq<char>,
    changes: Seq<TextChange>,
    other: Seq<char>,
)
    requires
        unique_keys(store),
        lookup(store, url) is Some,
        other != url,
    ensures
        ({
            let doc = lookup(store, url)->0;
            let text = edited_code(doc.code, changes, changes.len() as int);
            let now = refreshed(with_document(store, url, doc.with_code(text)), url);
            &&& lookup(now, url) matches Some(found) && found.code == text && found.tree
                == Tree::parse(text) && found.url == doc.url && found.changed
            &&& lookup(now, other) == lookup(store, other)
        }),
{
    let doc = lookup(store, url)->0;
    let text = edited_code(doc.code, changes, changes.len() as int);
    let after = doc.with_code(text);
    lemma_find(store, url);
    lemma_refreshed_lookup(store, url, after);
    lemma_other_lookup(store, url, after, other);
}

/// Replacing a document and moving it to the end leaves the others as they are.
proof fn lemma_other_lookup(store: StoreView, url: Seq<char>, doc: DocView, other: Seq<char>)
    requires
        unique_keys(store),
        find(store, url) is Some,
        other != url,
    ensures
        lookup(refreshed(with_document(store, url, doc), url), other) == lookup(store, other),
{
    lemma_find(store, url);
    lemma_find(store, other);
    let k = find(store, url)->0;
    let replaced = with_document(store, url, doc);
    assert forall|i: int, j: int| 0 <= i < j < replaced.len() implies (#[trigger] replaced[i]).0 != (
    #[trigger] replaced[j]).0 by {
        assert(store[i].0 != store[j].0);
    }
    lemma_find_unique(replaced, k);
    let now = refreshed(replaced, url);
    lemma_moved(replaced, url);
    lemma_find(now, other);
    let n = now.len() as int;
    match find(store, other) {
        Some(i) => {
            let j = if i < k {
                i
            } else {
                i - 1
            };
            assert(now[j] == replaced[moved(k, n, j)]);
            assert(now[j] == store[i]);
            if let Some(m) = find(now, other) {
                let p = moved(k, n, m);
                assert(now[m] == replaced[p]);
                if p < i {
                    assert(store[p].0 != store[i].0);
                } else if p > i {
                    assert(store[i].0 != store[p].0);
                }
            }
        },
        None => {
            if let Some(m) = find(now, other) {
                assert(now[m] == replaced[moved(k, n, m)]);
            }
        },
    }
}

/// A server asks to be told of changed files exactly where the client lets it, it was not told
/// already and did not ask before, and there is something to watch. It then asks for the files of
/// the language: below each root that has an address, where the client knows such patterns and
/// there are roots, and else everywhere.
pub proof fn law_files_are_watched(server: ServerView, bases: Seq<Option<Seq<char>>>)
    ensures
        ({
            let (after, asked) = registered(server, bases);
            let below = server.relative_patterns && bases.len() > 0;
            let may = server.dynamic_registration && !server.watched_files_registered
                && server.pending_registration is None;
            &&& (asked is Some) == (may && (!below || present(bases).len() > 0))
            &&& asked is None ==> after == server
            &&& asked matches Some(request) ==> {
                &&& after.pending_registration == Some(request.id)
                &&& request.id == server.next_request_id
                &&& request.watchers.len() == (if below {
                    present(bases).len()
                } else {
                    1
                })
                &&& forall|k: int|
                    0 <= k < request.watchers.len() ==> (#[trigger] request.watchers[k]).pattern
                        == "**/*.scad"@ && request.watchers[k].base_url == (if below {
                        Some(present(bases)[k])
                    } else {
                        None
                    })
            }
        }),
{
}

/// What a request to rename finds is what the index says of the identifier at the position, or
/// else, where a new look at the file says nothing either, the first thing that a search finds.
pub proof fn law_what_a_rename_is_about(
    settings: SettingsView,
    env: EnvView,
    known: KnowledgeView,
    url: Seq<char>,
    position: Position,
    scanned: Seq<Seq<char>>,
)
    ensures
        ({
            let (after, lookup) = rename_lookup(settings, env, known, url, position, scanned);
            match opened(known.store, url, env) {
                None => lookup is None,
                Some(doc) => {
                    let node = doc.tree.node_at(position);
                    let range = doc.tree.range(node);
                    let found = settings.find(
                        env,
                        with_opened(known.store, url, env),
                        doc,
                        FilterView::Named(doc.tree.node_text(doc.code, node)),
                        node,
                        false,
                    ).1;
                    if !(doc.tree.kind(node) is Identifier) {
                        lookup == Some(LookupView::NonIdentifier)
                    } else {
                        match after.index.symbol_at(url, range) {
                            Some(ResolvedView::Workspace(symbol)) => lookup == Some(
                                LookupView::Workspace { range, symbol },
                            ),
                            Some(ResolvedView::Builtin { .. }) => lookup == Some(
                                LookupView::Builtin,
                            ),
                            None => if found.len() == 0 {
                                lookup == Some(LookupView::Unresolved)
                            } else if found[0].url is None {
                                lookup == Some(LookupView::Builtin)
                            } else {
                                lookup matches Some(LookupView::Workspace { range: at, symbol })
                                    && at == range && found[0].url == Some(symbol.url)
                                    && found[0].name == symbol.name
                            },
                        }
                    }
                },
            }
        }),
{
}

} // verus!
