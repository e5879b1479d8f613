use vstd::prelude::*;

use crate::analysis::{reindex_urls, reindexed, KnowledgeView};
use crate::environment::{EnvView, Environment};
use crate::index_laws::{consistent, law_empty_index_is_consistent};
use crate::lists::lemma_push_to_set;
use crate::parse_code::{texts, DocView};
use crate::resolve::{SearchSettings, SettingsView};
use crate::sorting::{ascending, law_ascending_is_unique, law_sorting, sorted_texts};
use crate::store::{all_changed, find, lemma_find, CodeStore, StoreView};
use crate::text::same_text;
use crate::workspace_index::{all_dependents, IndexView, WorkspaceIndex};

verus! {

/// The addresses of the documents that are held.
pub open spec fn held_urls(store: StoreView) -> Seq<Seq<char>> {
    store.map_values(|e: (Seq<char>, DocView)| e.0)
}

/// The files of a list but for one.
pub open spec fn others(urls: Seq<Seq<char>>, builtin_url: Seq<char>) -> Seq<Seq<char>> {
    urls.filter(|url: Seq<char>| url != builtin_url)
}

/// The files that belong into the index: those that are held, but for the one of what the
/// language itself knows, and those that a walk through the workspace found.
pub open spec fn seed_urls(store: StoreView, builtin_url: Seq<char>, scanned: Seq<Seq<char>>) -> Seq<
    Seq<char>,
> {
    others(held_urls(store), builtin_url) + scanned
}

/// The files that belong into the index and are not in it.
pub open spec fn missing_urls(
    settings: SettingsView,
    known: KnowledgeView,
    scanned: Seq<Seq<char>>,
) -> Seq<Seq<char>> {
    seed_urls(known.store, settings.builtin_url, scanned).filter(
        |url: Seq<char>| !known.index.files.contains_key(url),
    )
}

/// What is known once the files that belong into the index were looked at.
pub open spec fn ensured(
    settings: SettingsView,
    env: EnvView,
    known: KnowledgeView,
    scanned: Seq<Seq<char>>,
) -> KnowledgeView {
    let urls = sorted_texts(missing_urls(settings, known, scanned));
    let now = reindexed(settings, env, known, urls, urls.len() as int);
    KnowledgeView { index: IndexView { initialized: true, ..now.index }, ..now }
}

/// The texts of a finite set in ascending order.
pub open spec fn sorted_set(set: Set<Seq<char>>) -> Seq<Seq<char>> {
    choose|list: Seq<Seq<char>>| #[trigger] ascending(list) && list.to_set() == set
}

/// What is known once a file and those that depend on it were looked at again. An index that
/// was not built is left alone.
pub open spec fn refreshed_for(
    settings: SettingsView,
    env: EnvView,
    known: KnowledgeView,
    url: Seq<char>,
) -> KnowledgeView {
    if !known.index.initialized {
        known
    } else {
        let urls = sorted_set(all_dependents(known.index.dependents, url).insert(url));
        reindexed(settings, env, known, urls, urls.len() as int)
    }
}

/// What is known once all files were looked at from scratch.
pub open spec fn rebuilt(
    settings: SettingsView,
    env: EnvView,
    known: KnowledgeView,
    scanned: Seq<Seq<char>>,
) -> KnowledgeView {
    ensured(
        settings,
        env,
        KnowledgeView { store: all_changed(known.store), index: IndexView::empty() },
        scanned,
    )
}

/// The files that belong into an index are those that were found and those that are held.
pub(crate) proof fn lemma_belongs(
    builtin: Seq<char>,
    store: StoreView,
    scanned: Seq<Seq<char>>,
    file: Seq<char>,
)
    requires
        scanned.contains(file) || (find(store, file) is Some && file != builtin),
    ensures
        seed_urls(store, builtin, scanned).contains(file),
{
    let held = others(held_urls(store), builtin);
    let seeds = seed_urls(store, builtin, scanned);
    assert(seeds == held + scanned);
    if scanned.contains(file) {
        let k = choose|k: int| 0 <= k < scanned.len() && scanned[k] == file;
        assert(seeds[held.len() + k] == file);
    } else {
        lemma_find(store, file);
        let k = find(store, file)->0;
        assert(held_urls(store)[k] == file);
        lemma_others(held_urls(store), builtin, k);
        let j = choose|j: int| 0 <= j < held.len() && held[j] == file;
        assert(seeds[j] == file);
    }
}

/// A list without one file holds the others.
proof fn lemma_others(urls: Seq<Seq<char>>, builtin: Seq<char>, k: int)
    requires
        0 <= k < urls.len(),
        urls[k] != builtin,
    ensures
        others(urls, builtin).contains(urls[k]),
    decreases urls.len(),
{
    reveal(Seq::filter);
    let rest = urls.drop_last();
    let all = others(urls, builtin);
    let earlier = others(rest, builtin);
    if k < rest.len() {
        lemma_others(rest, builtin, k);
        let j = choose|j: int| 0 <= j < earlier.len() && earlier[j] == urls[k];
        assert(all[j] == urls[k]);
    } else {
        assert(all[all.len() - 1] == urls[k]);
    }
}

/// A list of the files that belong into the index.
fn collect_workspace_seed_urls(
    store: &CodeStore,
    settings: &SearchSettings,
    scanned: Vec<String>,
) -> (urls: Vec<String>)
    requires
        store.wf(),
    ensures
        texts(urls@) == seed_urls(store@, settings.builtin_url@, texts(scanned@)),
{
    let keys = store.keys();
    let ghost all = texts(keys@);
    let ghost other = |url: Seq<char>| url != settings.builtin_url@;
    let mut urls: Vec<String> = Vec::new();
    proof {
        reveal(Seq::filter);
        assert(all.take(0) =~= Seq::empty());
        assert(texts(urls@) =~= all.take(0).filter(other));
    }
    let mut k: usize = 0;
    while k < keys.len()
        invariant
            k <= keys@.len(),
            all == texts(keys@),
            other == (|url: Seq<char>| url != settings.builtin_url@),
            texts(urls@) == all.take(k as int).filter(other),
        decreases keys@.len() - k,
    {
        let ghost before = texts(urls@);
        proof {
            reveal(Seq::filter);
            assert(all.take(k + 1).drop_last() =~= all.take(k as int));
            assert(all.take(k + 1).last() == keys@[k as int]@);
        }
        if !same_text(keys[k].as_str(), settings.builtin_url.as_str()) {
            urls.push(keys[k].clone());
            assert(texts(urls@) =~= before.push(keys@[k as int]@));
        }
        k += 1;
    }
    assert(all.take(keys@.len() as int) =~= all);
    let ghost held = urls@;
    let mut more = scanned;
    let ghost added = more@;
    urls.append(&mut more);
    assert(texts(urls@) =~= texts(held) + texts(added));
    urls
}

/// Looks at the files that belong into the index and are not in it.
pub fn ensure_workspace_index(
    store: &mut CodeStore,
    index: &mut WorkspaceIndex,
    settings: &SearchSettings,
    env: &Environment,
    scanned: Vec<String>,
)
    requires
        old(store).wf(),
        old(index).wf(),
    ensures
        final(store).wf(),
        final(index).wf(),
        ensured(
            settings@,
            env@,
            KnowledgeView { store: old(store)@, index: old(index)@ },
            texts(scanned@),
        ) == (KnowledgeView { store: final(store)@, index: final(index)@ }),
        consistent(old(index)@) ==> consistent(final(index)@),
{
    let ghost known = KnowledgeView { store: store@, index: index@ };
    let ghost found = texts(scanned@);
    let urls = collect_workspace_seed_urls(store, settings, scanned);
    let ghost all = texts(urls@);
    let ghost absent = |url: Seq<char>| !known.index.files.contains_key(url);
    let mut pending: Vec<String> = Vec::new();
    proof {
        reveal(Seq::filter);
        assert(all.take(0) =~= Seq::empty());
        assert(texts(pending@) =~= all.take(0).filter(absent));
    }
    let mut k: usize = 0;
    while k < urls.len()
        invariant
            k <= urls@.len(),
            index.wf(),
            index@ == known.index,
            all == texts(urls@),
            absent == (|url: Seq<char>| !known.index.files.contains_key(url)),
            texts(pending@) == all.take(k as int).filter(absent),
        decreases urls@.len() - k,
    {
        let ghost before = texts(pending@);
        proof {
            reveal(Seq::filter);
            assert(all.take(k + 1).drop_last() =~= all.take(k as int));
            assert(all.take(k + 1).last() == urls@[k as int]@);
        }
        if !index.contains_file(urls[k].as_str()) {
            pending.push(urls[k].clone());
            assert(texts(pending@) =~= before.push(urls@[k as int]@));
        }
        k += 1;
    }
    assert(all.take(urls@.len() as int) =~= all);
    assert(texts(pending@) == missing_urls(settings@, known, found));
    reindex_urls(store, index, settings, env, pending);
    let ghost now = index@;
    index.set_initialized();
    proof {
        if consistent(now) {
            lemma_flag_keeps_consistent(now, index@);
        }
    }
}

/// Whether an index was built has no part in whether it is consistent.
proof fn lemma_flag_keeps_consistent(a: IndexView, b: IndexView)
    requires
        consistent(a),
        b == (IndexView { initialized: true, ..a }),
    ensures
        consistent(b),
{
    assert(b.files == a.files && b.refs == a.refs && b.dependents == a.dependents);
}

/// Looks at a file and those that depend on it again.
pub fn refresh_workspace_index_for_url(
    store: &mut CodeStore,
    index: &mut WorkspaceIndex,
    settings: &SearchSettings,
    env: &Environment,
    url: &str,
)
    requires
        old(store).wf(),
        old(index).wf(),
    ensures
        final(store).wf(),
        final(index).wf(),
        refreshed_for(
            settings@,
            env@,
            KnowledgeView { store: old(store)@, index: old(index)@ },
            url@,
        ) == (KnowledgeView { store: final(store)@, index: final(index)@ }),
        consistent(old(index)@) ==> consistent(final(index)@),
{
    if !index.is_initialized() {
        return;
    }
    let mut affected = index.collect_dependents(url);
    let ghost dependents = texts(affected@);
    affected.push(url.to_owned());
    proof {
        let all = texts(affected@);
        let set = all_dependents(index@.dependents, url@).insert(url@);
        assert(all =~= dependents.push(url@));
        lemma_push_to_set(dependents, url@);
        law_sorting(all);
        assert(ascending(sorted_texts(all)) && sorted_texts(all).to_set() == set);
        law_ascending_is_unique(sorted_set(set), sorted_texts(all));
    }
    reindex_urls(store, index, settings, env, affected);
}

/// Looks at all files from scratch.
pub fn rebuild_workspace_index(
    store: &mut CodeStore,
    index: &mut WorkspaceIndex,
    settings: &SearchSettings,
    env: &Environment,
    scanned: Vec<String>,
)
    requires
        old(store).wf(),
        old(index).wf(),
    ensures
        final(store).wf(),
        final(index).wf(),
        rebuilt(
            settings@,
            env@,
            KnowledgeView { store: old(store)@, index: old(index)@ },
            texts(scanned@),
        ) == (KnowledgeView { store: final(store)@, index: final(index)@ }),
        consistent(final(index)@),
{
    store.mark_all_changed();
    index.clear();
    proof {
        law_empty_index_is_consistent();
    }
    ensure_workspace_index(store, index, settings, env, scanned);
}

/// Whether a directory of a name is passed over by a walk through the workspace.
pub open spec fn skipped_directory(name: Seq<char>) -> bool {
    ||| name == ".git"@
    ||| name == ".hg"@
    ||| name == ".svn"@
    ||| name == "node_modules"@
    ||| name == "target"@
    ||| name == ".idea"@
    ||| name == ".vscode"@
    ||| name == "__pycache__"@
}

/// Whether a directory is passed over by a walk through the workspace; one without a name that
/// is a text is not.
pub fn should_skip_directory(name: Option<&str>) -> (skip: bool)
    ensures
        skip == (match name {
            Some(name) => skipped_directory(name@),
            None => false,
        }),
{
    match name {
        Some(name) => same_text(name, ".git") || same_text(name, ".hg") || same_text(name, ".svn")
            || same_text(name, "node_modules") || same_text(name, "target") || same_text(
            name,
            ".idea",
        ) || same_text(name, ".vscode") || same_text(name, "__pycache__"),
        None => false,
    }
}

} // verus!
