use vstd::prelude::*;

use crate::analysis::{analyzed, opened, reindexed, KnowledgeView};
use crate::environment::EnvView;
use crate::indexing::rebuilt;
use crate::parse_code::{edited_code, DocView, TextChange};
use crate::resolve::SettingsView;
use crate::store::{
    find, lemma_find, lemma_find_pushed, lemma_without, lookup, trimmed_store, unique_keys,
    with_code, with_generated, with_loaded, with_reread, without, StoreView, CACHE_LIMIT,
};
use crate::workspace_index::IndexView;

verus! {

/// A document that was just put in is held, with the text it was put in with and nothing known of
/// it yet, and is the last that would be dropped.
pub proof fn law_a_new_document_is_held(store: StoreView, url: Seq<char>, code: Seq<char>)
    requires
        unique_keys(store),
    ensures
        lookup(with_code(store, url, code), url) == Some(DocView::fresh(code, url)),
        with_code(store, url, code).last() == (url, DocView::fresh(code, url)),
{
    let kept = trimmed_store(store);
    lemma_trimmed_unique(store);
    lemma_without(kept, url);
    let rest = without(kept, url);
    let now = with_code(store, url, code);
    lemma_find(now, url);
    assert(now[rest.len() as int].0 == url);
    if let Some(i) = find(now, url) {
        if i < rest.len() {
            assert(now[i] == rest[i]);
        }
    }
}

/// Dropping the oldest documents leaves each address with one.
proof fn lemma_trimmed_unique(store: StoreView)
    requires
        unique_keys(store),
    ensures
        unique_keys(trimmed_store(store)),
{
    let kept = trimmed_store(store);
    let d = store.len() - kept.len();
    assert forall|i: int, j: int| 0 <= i < j < kept.len() implies (#[trigger] kept[i]).0 != (
    #[trigger] kept[j]).0 by {
        assert(kept[i] == store[i + d]);
        assert(kept[j] == store[j + d]);
    }
}

/// However many documents are put in, no more are held than fit, and one more.
pub proof fn law_documents_are_bounded(store: StoreView, url: Seq<char>, code: Seq<char>)
    ensures
        with_code(store, url, code).len() <= CACHE_LIMIT + 1,
{
    lemma_find(trimmed_store(store), url);
}

/// Putting a document in leaves the others as they are, as long as there is room for them.
pub proof fn law_other_documents_stay(
    store: StoreView,
    url: Seq<char>,
    code: Seq<char>,
    other: Seq<char>,
)
    requires
        unique_keys(store),
        store.len() <= CACHE_LIMIT,
        other != url,
    ensures
        lookup(with_code(store, url, code), other) == lookup(store, other),
{
    let rest = without(store, url);
    let now = with_code(store, url, code);
    lemma_without(store, url);
    lemma_find(store, url);
    lemma_find(store, other);
    lemma_find(now, other);
    assert(now =~= rest.push((url, DocView::fresh(code, url))));
    if let Some(i) = find(store, other) {
        let j = match find(store, url) {
            Some(k) => if i < k {
                i
            } else {
                i - 1
            },
            None => i,
        };
        assert(now[j] == store[i]);
        if let Some(m) = find(now, other) {
            assert(m < rest.len());
            let n = match find(store, url) {
                Some(k) => if m < k {
                    m
                } else {
                    m + 1
                },
                None => m,
            };
            assert(now[m] == store[n]);
            if n != i {
                if n < i {
                    assert(store[n].0 != store[i].0);
                } else {
                    assert(store[i].0 != store[n].0);
                }
            }
        }
    } else if let Some(m) = find(now, other) {
        assert(m < rest.len());
        let n = match find(store, url) {
            Some(k) => if m < k {
                m
            } else {
                m + 1
            },
            None => m,
        };
        assert(now[m] == store[n]);
    }
}

/// Asking for a document that is held changes nothing; asking for one that is not gives what is on
/// disk, if anything.
pub proof fn law_asking_reads_once(store: StoreView, url: Seq<char>, env: EnvView)
    requires
        unique_keys(store),
    ensures
        find(store, url) is Some ==> with_loaded(store, url, env) == store,
        find(store, url) is None ==> lookup(with_loaded(store, url, env), url) == (match env.read(
            url,
        ) {
            Some(code) => Some(DocView::fresh(code, url)),
            None => None,
        }),
{
    if find(store, url) is None {
        if let Some(code) = env.read(url) {
            law_a_new_document_is_held(store, url, code);
        }
    }
}

/// A document that was read again has the text that is on disk, if it can be read.
pub proof fn law_reading_again_gives_what_is_on_disk(store: StoreView, url: Seq<char>, env: EnvView)
    requires
        unique_keys(store),
        env.read(url) is Some,
    ensures
        lookup(with_reread(store, url, env), url) is Some,
        lookup(with_reread(store, url, env), url)->0.code == env.read(url)->0,
{
    let code = env.read(url)->0;
    law_a_new_document_is_held(store, url, code);
}

/// The first changes of a list do not depend on those behind them.
proof fn lemma_edited_prefix(code: Seq<char>, a: Seq<TextChange>, b: Seq<TextChange>, k: int)
    requires
        k <= a.len(),
    ensures
        edited_code(code, a + b, k) == edited_code(code, a, k),
    decreases k,
{
    if k > 0 {
        lemma_edited_prefix(code, a, b, k - 1);
        assert((a + b)[k - 1] == a[k - 1]);
    }
}

/// Changes that come in two lists have the same effect as in one.
pub proof fn law_changes_add_up(code: Seq<char>, a: Seq<TextChange>, b: Seq<TextChange>, k: int)
    requires
        0 <= k <= b.len(),
    ensures
        edited_code(code, a + b, a.len() + k) == edited_code(
            edited_code(code, a, a.len() as int),
            b,
            k,
        ),
    decreases k,
{
    if k == 0 {
        lemma_edited_prefix(code, a, b, a.len() as int);
    } else {
        law_changes_add_up(code, a, b, k - 1);
        assert((a + b)[a.len() + k - 1] == b[k - 1]);
    }
}

/// Files that are not on a list stay in the index as they are when those on it are looked at again.
pub proof fn law_reindexing_leaves_others(
    settings: SettingsView,
    env: EnvView,
    known: KnowledgeView,
    urls: Seq<Seq<char>>,
    k: int,
    other: Seq<char>,
)
    requires
        k <= urls.len(),
        forall|j: int| 0 <= j < k ==> #[trigger] urls[j] != other,
    ensures
        ({
            let now = reindexed(settings, env, known, urls, k).index;
            &&& now.files.contains_key(other) == known.index.files.contains_key(other)
            &&& known.index.files.contains_key(other) ==> now.files[other]
                == known.index.files[other]
        }),
    decreases k,
{
    if k > 0 {
        law_reindexing_leaves_others(settings, env, known, urls, k - 1, other);
        assert(urls[k - 1] != other);
    }
}

/// When the files of a list are looked at again, those that can be read are in the index after it.
pub proof fn law_reindexing_covers_readable_files(
    settings: SettingsView,
    env: EnvView,
    known: KnowledgeView,
    urls: Seq<Seq<char>>,
    k: int,
    i: int,
)
    requires
        0 <= i < k <= urls.len(),
        urls.no_duplicates(),
        env.read(urls[i]) is Some,
    ensures
        reindexed(settings, env, known, urls, k).index.files.contains_key(urls[i]),
    decreases k,
{
    let before = reindexed(settings, env, known, urls, k - 1);
    if i == k - 1 {
        lemma_readable_opens(before.store, urls[i], env);
        assert(analyzed(settings, env, before.store, urls[i]).1 is Some);
    } else {
        law_reindexing_covers_readable_files(settings, env, known, urls, k - 1, i);
        assert(urls[i] != urls[k - 1]);
    }
}

/// A document that can be read is there once it was asked for.
proof fn lemma_readable_opens(store: StoreView, url: Seq<char>, env: EnvView)
    requires
        env.read(url) is Some,
    ensures
        opened(store, url, env) is Some,
{
    let held = with_loaded(store, url, env);
    assert(find(held, url) is Some) by {
        if find(store, url) is None {
            let kept = without(trimmed_store(store), url);
            lemma_find_pushed(kept, url, DocView::fresh(env.read(url)->0, url));
        }
    }
    lemma_find(held, url);
    let now = with_generated(held, url, env);
    lemma_find(now, url);
    let k = find(held, url)->0;
    assert(now[k].0 == url);
}

/// Looking at all files from scratch does not depend on what the index said before: nothing that
/// is out of date stays in it.
pub proof fn law_rebuilding_forgets_the_index(
    settings: SettingsView,
    env: EnvView,
    store: StoreView,
    a: IndexView,
    b: IndexView,
    scanned: Seq<Seq<char>>,
)
    ensures
        rebuilt(settings, env, KnowledgeView { store, index: a }, scanned) == rebuilt(
            settings,
            env,
            KnowledgeView { store, index: b },
            scanned,
        ),
{
}

} // verus!
