use linked_hash_map::LinkedHashMap;
use vstd::prelude::*;

use crate::environment::{EnvView, Environment};
use crate::parse_code::{edited_code, texts, DocView, ParsedCode, TextChange};

verus! {

/// The map of the `linked_hash_map` crate: it keeps its entries in the order in which they were
/// put in or last refreshed.
#[verifier::external_type_specification]
#[verifier::external_body]
#[verifier::reject_recursive_types(K)]
#[verifier::reject_recursive_types(V)]
#[verifier::reject_recursive_types(S)]
pub struct ExLinkedHashMap<K, V, S>(LinkedHashMap<K, V, S>);

/// The entries of a map, the oldest first.
pub uninterp spec fn map_entries(map: LinkedHashMap<String, usize>) -> Seq<(Seq<char>, usize)>;

/// The place of the first entry of a key from place `k` on.
pub open spec fn find_from<V>(entries: Seq<(Seq<char>, V)>, key: Seq<char>, k: int) -> Option<int>
    decreases entries.len() - k,
{
    if k < 0 || k >= entries.len() {
        None
    } else if entries[k].0 == key {
        Some(k)
    } else {
        find_from(entries, key, k + 1)
    }
}

/// The place of the entry of a key.
pub open spec fn find<V>(entries: Seq<(Seq<char>, V)>, key: Seq<char>) -> Option<int> {
    find_from(entries, key, 0)
}

/// The value of a key.
pub open spec fn lookup<V>(entries: Seq<(Seq<char>, V)>, key: Seq<char>) -> Option<V> {
    match find(entries, key) {
        Some(k) => Some(entries[k].1),
        None => None,
    }
}

/// The entries but for that of a key.
pub open spec fn without<V>(entries: Seq<(Seq<char>, V)>, key: Seq<char>) -> Seq<(Seq<char>, V)> {
    match find(entries, key) {
        Some(k) => entries.remove(k),
        None => entries,
    }
}

/// The entries with that of a key moved to the end.
pub open spec fn refreshed<V>(entries: Seq<(Seq<char>, V)>, key: Seq<char>) -> Seq<(Seq<char>, V)> {
    match find(entries, key) {
        Some(k) => entries.remove(k).push(entries[k]),
        None => entries,
    }
}

/// Each key has one entry.
pub open spec fn unique_keys<V>(entries: Seq<(Seq<char>, V)>) -> bool {
    forall|i: int, j: int|
        0 <= i < j < entries.len() ==> (#[trigger] entries[i]).0 != (#[trigger] entries[j]).0
}

/// Makes an empty map with `LinkedHashMap::new`.
#[verifier::external_body]
fn map_new() -> (map: LinkedHashMap<String, usize>)
    ensures
        map_entries(map) == Seq::<(Seq<char>, usize)>::empty(),
{
    LinkedHashMap::new()
}

/// Counts the entries with `LinkedHashMap::len`.
#[verifier::external_body]
fn map_len(map: &LinkedHashMap<String, usize>) -> (len: usize)
    ensures
        len == map_entries(*map).len(),
{
    map.len()
}

/// Looks a key up with `LinkedHashMap::get`, which leaves the order alone.
#[verifier::external_body]
fn map_get(map: &LinkedHashMap<String, usize>, key: &str) -> (value: Option<usize>)
    ensures
        value == lookup(map_entries(*map), key@),
{
    map.get(key).copied()
}

/// Looks a key up with `LinkedHashMap::get_refresh`, which moves its entry to the end.
#[verifier::external_body]
fn map_get_refresh(map: &mut LinkedHashMap<String, usize>, key: &str) -> (value: Option<usize>)
    ensures
        value == lookup(map_entries(*old(map)), key@),
        map_entries(*final(map)) == refreshed(map_entries(*old(map)), key@),
{
    map.get_refresh(key).copied()
}

/// Puts an entry in with `LinkedHashMap::insert`: it goes to the end, also where the key was
/// there before, and the value that the key had is returned.
#[verifier::external_body]
fn map_insert(map: &mut LinkedHashMap<String, usize>, key: String, value: usize) -> (before: Option<
    usize,
>)
    ensures
        before == lookup(map_entries(*old(map)), key@),
        map_entries(*final(map)) == without(map_entries(*old(map)), key@).push((key@, value)),
{
    map.insert(key, value)
}

/// Takes the entry of a key out with `LinkedHashMap::remove`.
#[verifier::external_body]
fn map_remove(map: &mut LinkedHashMap<String, usize>, key: &str) -> (before: Option<usize>)
    ensures
        before == lookup(map_entries(*old(map)), key@),
        map_entries(*final(map)) == without(map_entries(*old(map)), key@),
{
    map.remove(key)
}

/// Takes the oldest entry out with `LinkedHashMap::pop_front`.
#[verifier::external_body]
fn map_pop_front(map: &mut LinkedHashMap<String, usize>) -> (first: Option<(String, usize)>)
    ensures
        match first {
            Some(entry) => map_entries(*old(map)).len() > 0 && (entry.0@, entry.1) == map_entries(
                *old(map),
            )[0] && map_entries(*final(map)) == map_entries(*old(map)).drop_first(),
            None => map_entries(*old(map)).len() == 0 && map_entries(*final(map)) == map_entries(
                *old(map),
            ),
        },
{
    map.pop_front()
}

/// Lists the keys with `LinkedHashMap::keys`, the oldest first.
#[verifier::external_body]
fn map_keys(map: &LinkedHashMap<String, usize>) -> (keys: Vec<String>)
    ensures
        texts(keys@) == map_entries(*map).map_values(|e: (Seq<char>, usize)| e.0),
{
    map.keys().cloned().collect()
}

/// The number of documents above which the oldest are dropped.
pub const CACHE_LIMIT: usize = 1000;

/// The documents that are held, each under its address; the oldest are dropped first.
pub struct CodeStore {
    order: LinkedHashMap<String, usize>,
    slots: Vec<Option<ParsedCode>>,
}

/// The model of a [`CodeStore`]: addresses and documents, the oldest first.
pub type StoreView = Seq<(Seq<char>, DocView)>;

/// The documents that the entries of a map stand for.
pub open spec fn documents(entries: Seq<(Seq<char>, usize)>, slots: Seq<Option<ParsedCode>>) -> StoreView {
    entries.map_values(|e: (Seq<char>, usize)| (e.0, slots[e.1 as int]->0@))
}

impl View for CodeStore {
    type V = StoreView;

    closed spec fn view(&self) -> StoreView {
        documents(map_entries(self.order), self.slots@)
    }
}

/// Each address has one document, whose tree is that of its text.
pub open spec fn store_wf(store: StoreView) -> bool {
    &&& unique_keys(store)
    &&& forall|i: int|
        0 <= i < store.len() ==> (#[trigger] store[i]).1.wf() && store[i].1.url == store[i].0
}

/// The documents that stay when there are too many.
pub open spec fn trimmed_store(store: StoreView) -> StoreView {
    if store.len() > CACHE_LIMIT {
        store.skip(store.len() - CACHE_LIMIT)
    } else {
        store
    }
}

/// The documents with another one put at the end.
pub open spec fn with_code(store: StoreView, url: Seq<char>, code: Seq<char>) -> StoreView {
    without(trimmed_store(store), url).push((url, DocView::fresh(code, url)))
}

/// The documents with one of them replaced in its place.
pub open spec fn with_document(store: StoreView, url: Seq<char>, doc: DocView) -> StoreView {
    match find(store, url) {
        Some(k) => store.update(k, (url, doc)),
        None => store,
    }
}

/// The documents with one of them brought up to date.
pub open spec fn with_generated(store: StoreView, url: Seq<char>, env: EnvView) -> StoreView {
    match lookup(store, url) {
        Some(doc) => with_document(store, url, doc.generated(env)),
        None => store,
    }
}

/// The documents once one was asked for: one that is not held is read, if it can be.
pub open spec fn with_loaded(store: StoreView, url: Seq<char>, env: EnvView) -> StoreView {
    if find(store, url) is Some {
        store
    } else {
        match env.read(url) {
            Some(code) => with_code(store, url, code),
            None => store,
        }
    }
}

/// The documents once one was read again.
pub open spec fn with_reread(store: StoreView, url: Seq<char>, env: EnvView) -> StoreView {
    match env.read(url) {
        Some(code) => match lookup(store, url) {
            Some(doc) => if doc.code == code {
                store
            } else {
                with_code(store, url, code)
            },
            None => with_code(store, url, code),
        },
        None => store,
    }
}

/// The documents with what is known of their top level marked as out of date.
pub open spec fn all_changed(store: StoreView) -> StoreView {
    store.map_values(|e: (Seq<char>, DocView)| (e.0, DocView { changed: true, ..e.1 }))
}

/// The place that [`find_from`] finds holds the key, and no place before does.
pub proof fn lemma_find_from<V>(entries: Seq<(Seq<char>, V)>, key: Seq<char>, k: int)
    requires
        0 <= k,
    ensures
        match find_from(entries, key, k) {
            Some(i) => k <= i < entries.len() && entries[i].0 == key && forall|j: int|
                k <= j < i ==> (#[trigger] entries[j]).0 != key,
            None => forall|j: int| k <= j < entries.len() ==> (#[trigger] entries[j]).0 != key,
        },
    decreases entries.len() - k,
{
    if k < entries.len() && entries[k].0 != key {
        lemma_find_from(entries, key, k + 1);
    }
}

/// The place that [`find`] finds holds the key, and no other place does.
pub proof fn lemma_find<V>(entries: Seq<(Seq<char>, V)>, key: Seq<char>)
    ensures
        match find(entries, key) {
            Some(i) => 0 <= i < entries.len() && entries[i].0 == key && forall|j: int|
                0 <= j < i ==> (#[trigger] entries[j]).0 != key,
            None => forall|j: int| 0 <= j < entries.len() ==> (#[trigger] entries[j]).0 != key,
        },
{
    lemma_find_from(entries, key, 0);
}

/// Two lists with the same keys in the same order find keys in the same places.
pub proof fn lemma_find_same_keys<V, W>(a: Seq<(Seq<char>, V)>, b: Seq<(Seq<char>, W)>, key: Seq<char>)
    requires
        a.len() == b.len(),
        forall|i: int| 0 <= i < a.len() ==> (#[trigger] a[i]).0 == (#[trigger] b[i]).0,
    ensures
        find(a, key) == find(b, key),
{
    lemma_find(a, key);
    lemma_find(b, key);
    match find(a, key) {
        Some(i) => {
            assert(b[i].0 == key);
            match find(b, key) {
                Some(j) => {
                    assert(a[j].0 == key);
                    if i < j {
                        assert(b[i].0 != key);
                    } else if j < i {
                        assert(a[j].0 != key);
                    }
                },
                None => {},
            }
        },
        None => {
            match find(b, key) {
                Some(j) => {
                    assert(a[j].0 == key);
                },
                None => {},
            }
        },
    }
}

/// Where keys are unique, the place of a key is the place that [`find`] finds.
pub proof fn lemma_find_unique<V>(entries: Seq<(Seq<char>, V)>, i: int)
    requires
        unique_keys(entries),
        0 <= i < entries.len(),
    ensures
        find(entries, entries[i].0) == Some(i),
{
    lemma_find(entries, entries[i].0);
}

/// Taking an entry out leaves each key with one entry, and none for its own.
pub proof fn lemma_without<V>(entries: Seq<(Seq<char>, V)>, key: Seq<char>)
    requires
        unique_keys(entries),
    ensures
        unique_keys(without(entries, key)),
        forall|i: int|
            0 <= i < without(entries, key).len() ==> (#[trigger] without(entries, key)[i]).0 != key
                && entries.contains(without(entries, key)[i]),
        find(without(entries, key), key) is None,
{
    lemma_find(entries, key);
    let rest = without(entries, key);
    match find(entries, key) {
        Some(k) => {
            assert forall|i: int| 0 <= i < rest.len() implies (#[trigger] rest[i]).0 != key
                && entries.contains(rest[i]) by {
                let j = if i < k {
                    i
                } else {
                    i + 1
                };
                assert(rest[i] == entries[j]);
                assert(entries[k].0 == key);
            }
            assert forall|i: int, j: int| 0 <= i < j < rest.len() implies (#[trigger] rest[i]).0
                != (#[trigger] rest[j]).0 by {
                let a = if i < k {
                    i
                } else {
                    i + 1
                };
                let b = if j < k {
                    j
                } else {
                    j + 1
                };
                assert(rest[i] == entries[a] && rest[j] == entries[b]);
            }
        },
        None => {
            assert forall|i: int| 0 <= i < rest.len() implies (#[trigger] rest[i]).0 != key
                && entries.contains(rest[i]) by {
                assert(entries[i] == rest[i]);
            }
        },
    }
    lemma_find(rest, key);
}

impl CodeStore {
    /// The entries of the map stand for documents, each for its own.
    spec fn inner_wf(self) -> bool {
        let entries = map_entries(self.order);
        &&& unique_keys(entries)
        &&& forall|i: int|
            0 <= i < entries.len() ==> {
                let slot = (#[trigger] entries[i]).1 as int;
                slot < self.slots@.len() && self.slots@[slot] is Some
            }
        &&& forall|i: int, j: int|
            0 <= i < j < entries.len() ==> (#[trigger] entries[i]).1 != (#[trigger] entries[j]).1
    }

    /// The store holds documents that fit their addresses.
    pub closed spec fn wf(self) -> bool {
        self.inner_wf() && store_wf(self@)
    }

    /// A store that fits has one document for each address.
    pub proof fn lemma_wf(self)
        requires
            self.wf(),
        ensures
            store_wf(self@),
    {
    }

    /// An empty store.
    pub fn new() -> (store: CodeStore)
        ensures
            store.wf(),
            store@ == Seq::<(Seq<char>, DocView)>::empty(),
    {
        let store = CodeStore { order: map_new(), slots: Vec::new() };
        assert(store@ =~= Seq::<(Seq<char>, DocView)>::empty());
        store
    }

    /// The number of documents.
    pub fn len(&self) -> (len: usize)
        requires
            self.wf(),
        ensures
            len == self@.len(),
    {
        map_len(&self.order)
    }

    /// The keys of the map are the addresses of the documents.
    proof fn lemma_same_keys(self, url: Seq<char>)
        ensures
            find(self@, url) == find(map_entries(self.order), url),
    {
        lemma_find_same_keys(self@, map_entries(self.order), url);
    }

    /// The place of the document at an address.
    fn slot(&self, url: &str) -> (slot: Option<usize>)
        requires
            self.wf(),
        ensures
            match slot {
                Some(s) => s < self.slots@.len() && self.slots@[s as int] is Some && lookup(
                    self@,
                    url@,
                ) == Some(self.slots@[s as int]->0@) && lookup(map_entries(self.order), url@)
                    == Some(s),
                None => find(self@, url@) is None,
            },
    {
        proof {
            self.lemma_same_keys(url@);
            lemma_find(map_entries(self.order), url@);
        }
        map_get(&self.order, url)
    }

    /// Whether there is a document at an address.
    pub fn contains(&self, url: &str) -> (r: bool)
        requires
            self.wf(),
        ensures
            r == find(self@, url@) is Some,
    {
        self.slot(url).is_some()
    }

    /// The document at an address.
    pub fn get(&self, url: &str) -> (doc: Option<&ParsedCode>)
        requires
            self.wf(),
        ensures
            match doc {
                Some(doc) => lookup(self@, url@) == Some(doc@) && doc@.wf() && doc@.url == url@,
                None => lookup(self@, url@) is None,
            },
    {
        proof {
            lemma_find(self@, url@);
        }
        match self.slot(url) {
            Some(slot) => self.slots[slot].as_ref(),
            None => None,
        }
    }

    /// The addresses of the documents, the oldest first.
    pub fn keys(&self) -> (keys: Vec<String>)
        requires
            self.wf(),
        ensures
            texts(keys@) == self@.map_values(|e: (Seq<char>, DocView)| e.0),
    {
        let keys = map_keys(&self.order);
        assert(texts(keys@) =~= self@.map_values(|e: (Seq<char>, DocView)| e.0));
        keys
    }

    /// A slot that no entry uses.
    fn free_slot(&mut self) -> (slot: usize)
        requires
            old(self).wf(),
        ensures
            final(self).wf(),
            final(self)@ == old(self)@,
            final(self).order == old(self).order,
            slot < final(self).slots@.len(),
            forall|i: int|
                0 <= i < map_entries(final(self).order).len() ==> (#[trigger] map_entries(
                    final(self).order,
                )[i]).1 != slot,
    {
        let mut k: usize = 0;
        while k < self.slots.len()
            invariant
                k <= self.slots@.len(),
                *self == *old(self),
                self.wf(),
            decreases self.slots@.len() - k,
        {
            if self.slots[k].is_none() {
                assert(self.slots@[k as int] is None);
                return k;
            }
            k += 1;
        }
        self.slots.push(None);
        assert(self@ =~= old(self)@);
        k
    }

    /// Drops the oldest document.
    fn drop_oldest(&mut self)
        requires
            old(self).wf(),
            old(self)@.len() > 0,
        ensures
            final(self).wf(),
            final(self)@ == old(self)@.drop_first(),
    {
        let ghost entries = map_entries(self.order);
        let ghost slots = self.slots@;
        match map_pop_front(&mut self.order) {
            Some(entry) => {
                let slot: usize = entry.1;
                assert(entries[0].1 == slot);
                self.slots.set(slot, None);
                proof {
                    let rest = map_entries(self.order);
                    assert forall|i: int| 0 <= i < rest.len() implies {
                        &&& (#[trigger] rest[i]).1 < self.slots@.len()
                        &&& self.slots@[rest[i].1 as int] == slots[entries[i + 1].1 as int]
                        &&& slots[entries[i + 1].1 as int] is Some
                    } by {
                        assert(rest[i] == entries[i + 1]);
                        assert(entries[0].1 != entries[i + 1].1);
                    }
                    assert(unique_keys(rest)) by {
                        assert forall|i: int, j: int| 0 <= i < j < rest.len() implies (
                        #[trigger] rest[i]).0 != (#[trigger] rest[j]).0 by {
                            assert(rest[i] == entries[i + 1] && rest[j] == entries[j + 1]);
                        }
                    }
                    assert forall|i: int, j: int| 0 <= i < j < rest.len() implies (
                    #[trigger] rest[i]).1 != (#[trigger] rest[j]).1 by {
                        assert(rest[i] == entries[i + 1] && rest[j] == entries[j + 1]);
                    }
                    assert(self@ =~= old(self)@.drop_first());
                    lemma_store_skip(old(self)@, 1);
                    assert(old(self)@.skip(1) =~= old(self)@.drop_first());
                }
            },
            None => {},
        }
    }

    /// Holds a new document, at the end; the oldest are dropped where there are too many.
    pub fn insert_code(&mut self, url: String, code: String)
        requires
            old(self).wf(),
        ensures
            final(self).wf(),
            final(self)@ == with_code(old(self)@, url@, code@),
    {
        let ghost start = self@;
        assert(start.skip(0) =~= start);
        while self.len() > CACHE_LIMIT
            invariant
                self.wf(),
                start == old(self)@,
                self@.len() <= start.len(),
                self@ == start.skip(start.len() - self@.len()),
                self@.len() >= CACHE_LIMIT || self@ == start,
            decreases self@.len(),
        {
            let ghost before = self@;
            self.drop_oldest();
            assert(self@ =~= start.skip(start.len() - self@.len()));
        }
        assert(self@ =~= trimmed_store(start));
        let ghost kept = self@;
        let doc = ParsedCode::new(code, url.clone());
        let slot: usize = self.free_slot();
        let ghost entries = map_entries(self.order);
        let ghost slots = self.slots@;
        proof {
            self.lemma_same_keys(url@);
            lemma_find(entries, url@);
            lemma_without(entries, url@);
            lemma_without(kept, url@);
        }
        let before: Option<usize> = map_insert(&mut self.order, url, slot);
        match before {
            Some(b) => {
                self.slots.set(b, None);
            },
            None => {},
        }
        self.slots.set(slot, Some(doc));
        proof {
            let now = map_entries(self.order);
            let rest = without(entries, url@);
            assert(now == rest.push((url@, slot)));
            assert forall|i: int| 0 <= i < rest.len() implies {
                &&& (#[trigger] rest[i]).1 < self.slots@.len()
                &&& rest[i].1 != slot
                &&& self.slots@[rest[i].1 as int] == slots[rest[i].1 as int]
                &&& slots[rest[i].1 as int] is Some
            } by {
                let j = choose|j: int| 0 <= j < entries.len() && entries[j] == rest[i];
                assert(entries[j].1 != slot);
                match find(entries, url@) {
                    Some(k) => {
                        assert(rest[i].0 != url@);
                        assert(entries[k].0 == url@);
                        assert(j != k);
                        if j < k {
                            assert(entries[j].1 != entries[k].1);
                        } else {
                            assert(entries[k].1 != entries[j].1);
                        }
                    },
                    None => {},
                }
            }
            assert(self.inner_wf()) by {
                assert forall|i: int, j: int| 0 <= i < j < now.len() implies (
                #[trigger] now[i]).0 != (#[trigger] now[j]).0 by {
                    if j < rest.len() {
                        assert(now[i] == rest[i] && now[j] == rest[j]);
                    } else {
                        assert(now[i] == rest[i]);
                    }
                }
                assert forall|i: int, j: int| 0 <= i < j < now.len() implies (
                #[trigger] now[i]).1 != (#[trigger] now[j]).1 by {
                    assert(now[i] == rest[i]);
                    let a = choose|a: int| 0 <= a < entries.len() && entries[a] == rest[i];
                    if j < rest.len() {
                        assert(now[j] == rest[j]);
                        let b = choose|b: int| 0 <= b < entries.len() && entries[b] == rest[j];
                        assert(rest[i].0 != rest[j].0);
                        assert(a != b);
                        if a < b {
                            assert(entries[a].1 != entries[b].1);
                        } else {
                            assert(entries[b].1 != entries[a].1);
                        }
                    }
                }
                assert forall|i: int| 0 <= i < now.len() implies {
                    let slot = (#[trigger] now[i]).1 as int;
                    slot < self.slots@.len() && self.slots@[slot] is Some
                } by {
                    if i < rest.len() {
                        assert(now[i] == rest[i]);
                    }
                }
            }
            assert(self@ =~= without(kept, url@).push((url@, DocView::fresh(code@, url@)))) by {
                let goal = without(kept, url@).push((url@, DocView::fresh(code@, url@)));
                assert(self@.len() == goal.len());
                assert forall|i: int| 0 <= i < goal.len() implies self@[i] == goal[i] by {
                    if i < rest.len() {
                        assert(now[i] == rest[i]);
                        assert(self.slots@[rest[i].1 as int] == slots[rest[i].1 as int]);
                        match find(entries, url@) {
                            Some(k) => {
                                let j = if i < k {
                                    i
                                } else {
                                    i + 1
                                };
                                assert(rest[i] == entries[j]);
                                assert(without(kept, url@)[i] == kept[j]);
                            },
                            None => {
                                assert(rest[i] == entries[i]);
                            },
                        }
                    }
                }
            }
            lemma_store_with_code(start, url@, code@);
        }
    }

    /// Takes the document at an address out.
    pub fn remove(&mut self, url: &str)
        requires
            old(self).wf(),
        ensures
            final(self).wf(),
            final(self)@ == without(old(self)@, url@),
    {
        let ghost entries = map_entries(self.order);
        let ghost slots = self.slots@;
        proof {
            self.lemma_same_keys(url@);
            lemma_find(entries, url@);
            lemma_without(entries, url@);
            lemma_without(self@, url@);
        }
        match map_remove(&mut self.order, url) {
            Some(slot) => {
                self.slots.set(slot, None);
            },
            None => {},
        }
        proof {
            let rest = map_entries(self.order);
            match find(entries, url@) {
                Some(k) => {
                    assert forall|i: int| 0 <= i < rest.len() implies {
                        &&& (#[trigger] rest[i]) == entries[if i < k {
                            i
                        } else {
                            i + 1
                        }]
                        &&& self.slots@[rest[i].1 as int] == slots[rest[i].1 as int]
                    } by {
                        if i < k {
                            assert(entries[i].1 != entries[k].1);
                        } else {
                            assert(entries[k].1 != entries[i + 1].1);
                        }
                    }
                    assert(self@ =~= without(old(self)@, url@));
                    assert forall|i: int, j: int| 0 <= i < j < rest.len() implies (
                    #[trigger] rest[i]).1 != (#[trigger] rest[j]).1 by {
                        let a = if i < k {
                            i
                        } else {
                            i + 1
                        };
                        let b = if j < k {
                            j
                        } else {
                            j + 1
                        };
                        assert(rest[i] == entries[a] && rest[j] == entries[b]);
                    }
                },
                None => {},
            }
            lemma_store_without(old(self)@, url@);
        }
    }

    /// Replacing the document of an entry replaces the document at its address.
    proof fn lemma_replaced(before: CodeStore, after: CodeStore, url: Seq<char>, slot: usize)
        requires
            before.wf(),
            after.order == before.order,
            lookup(map_entries(before.order), url) == Some(slot),
            slot < before.slots@.len(),
            after.slots@.len() == before.slots@.len(),
            after.slots@[slot as int] is Some,
            after.slots@[slot as int]->0@.wf(),
            after.slots@[slot as int]->0@.url == url,
            forall|i: int|
                0 <= i < before.slots@.len() && i != slot ==> #[trigger] after.slots@[i]
                    == before.slots@[i],
        ensures
            after.wf(),
            after@ == with_document(before@, url, after.slots@[slot as int]->0@),
    {
        let entries = map_entries(before.order);
        before.lemma_same_keys(url);
        lemma_find(entries, url);
        let k = find(entries, url)->0;
        let doc = after.slots@[slot as int]->0@;
        assert forall|i: int| 0 <= i < entries.len() && i != k implies (#[trigger] entries[i]).1
            != slot by {
            if i < k {
                assert(entries[i].1 != entries[k].1);
            } else {
                assert(entries[k].1 != entries[i].1);
            }
        }
        assert(after@ =~= with_document(before@, url, doc));
        lemma_store_with_document(before@, url, doc);
    }

    /// Brings what is at the top level of a document up to date.
    pub fn generate(&mut self, url: &str, env: &Environment)
        requires
            old(self).wf(),
        ensures
            final(self).wf(),
            final(self)@ == with_generated(old(self)@, url@, env@),
    {
        proof {
            lemma_find(self@, url@);
        }
        match self.slot(url) {
            Some(slot) => {
                let ghost before = *self;
                match &mut self.slots[slot] {
                    Some(doc) => doc.gen_top_level_items_if_needed(env),
                    None => {},
                }
                proof {
                    CodeStore::lemma_replaced(before, *self, url@, slot);
                }
            },
            None => {},
        }
    }

    /// Applies changes to a document and moves it to the end. Returns whether there is one.
    pub fn edit(&mut self, url: &str, changes: &Vec<TextChange>) -> (known: bool)
        requires
            old(self).wf(),
        ensures
            final(self).wf(),
            known == find(old(self)@, url@) is Some,
            final(self)@ == (match lookup(old(self)@, url@) {
                Some(doc) => refreshed(
                    with_document(
                        old(self)@,
                        url@,
                        doc.with_code(edited_code(doc.code, changes@, changes@.len() as int)),
                    ),
                    url@,
                ),
                None => old(self)@,
            }),
    {
        proof {
            lemma_find(self@, url@);
        }
        match self.slot(url) {
            Some(slot) => {
                let ghost before = *self;
                match &mut self.slots[slot] {
                    Some(doc) => doc.edit(changes),
                    None => {},
                }
                proof {
                    CodeStore::lemma_replaced(before, *self, url@, slot);
                }
                self.refresh(url);
                true
            },
            None => false,
        }
    }

    /// Moves a document to the end.
    fn refresh(&mut self, url: &str)
        requires
            old(self).wf(),
        ensures
            final(self).wf(),
            final(self)@ == refreshed(old(self)@, url@),
    {
        let ghost before = *self;
        map_get_refresh(&mut self.order, url);
        proof {
            CodeStore::lemma_refreshed(before, *self, url@);
        }
    }

    /// A store in which a document was moved to the end fits, and holds the same documents.
    proof fn lemma_refreshed(before: CodeStore, after: CodeStore, url: Seq<char>)
        requires
            before.wf(),
            after.slots == before.slots,
            map_entries(after.order) == refreshed(map_entries(before.order), url),
        ensures
            after.wf(),
            after@ == refreshed(before@, url),
    {
        let entries = map_entries(before.order);
        let now = map_entries(after.order);
        before.lemma_same_keys(url);
        lemma_find(entries, url);
        lemma_store_refreshed(before@, url);
        lemma_moved(entries, url);
        lemma_moved(before@, url);
        match find(entries, url) {
            Some(k) => {
                assert forall|i: int| 0 <= i < now.len() implies after@[i] == refreshed(
                    before@,
                    url,
                )[i] by {
                    assert(now[i] == entries[moved(k, now.len() as int, i)]);
                }
                assert(after@ =~= refreshed(before@, url));
                assert forall|i: int, j: int| 0 <= i < j < now.len() implies (
                #[trigger] now[i]).0 != (#[trigger] now[j]).0 && now[i].1 != now[j].1 by {
                    let a = moved(k, now.len() as int, i);
                    let b = moved(k, now.len() as int, j);
                    assert(now[i] == entries[a] && now[j] == entries[b]);
                    if a < b {
                        assert(entries[a].0 != entries[b].0);
                    } else {
                        assert(entries[b].0 != entries[a].0);
                    }
                }
            },
            None => {
                assert(after@ =~= before@);
            },
        }
    }

    /// Marks a document as the one of what the language itself knows.
    pub fn mark_builtin(&mut self, url: &str, external: bool)
        requires
            old(self).wf(),
        ensures
            final(self).wf(),
            final(self)@ == (match lookup(old(self)@, url@) {
                Some(doc) => with_document(
                    old(self)@,
                    url@,
                    DocView { is_builtin: true, external_builtin: external, ..doc },
                ),
                None => old(self)@,
            }),
    {
        proof {
            lemma_find(self@, url@);
        }
        match self.slot(url) {
            Some(slot) => {
                let ghost before = *self;
                match &mut self.slots[slot] {
                    Some(doc) => {
                        doc.is_builtin = true;
                        doc.external_builtin = external;
                    },
                    None => {},
                }
                proof {
                    CodeStore::lemma_replaced(before, *self, url@, slot);
                }
            },
            None => {},
        }
    }

    /// Marks what is known of the top level of every document as out of date.
    pub fn mark_all_changed(&mut self)
        requires
            old(self).wf(),
        ensures
            final(self).wf(),
            final(self)@ == all_changed(old(self)@),
    {
        let ghost entries = map_entries(self.order);
        let ghost slots = self.slots@;
        let mut k: usize = 0;
        while k < self.slots.len()
            invariant
                k <= self.slots@.len(),
                self.slots@.len() == slots.len(),
                self.order == old(self).order,
                slots == old(self).slots@,
                forall|i: int|
                    k <= i < slots.len() ==> #[trigger] self.slots@[i] == slots[i],
                forall|i: int|
                    0 <= i < k ==> (#[trigger] self.slots@[i] is Some <==> slots[i] is Some) && (
                    slots[i] is Some ==> self.slots@[i]->0@ == (DocView {
                        changed: true,
                        ..slots[i]->0@
                    })),
            decreases self.slots@.len() - k,
        {
            match &mut self.slots[k] {
                Some(doc) => {
                    doc.changed = true;
                },
                None => {},
            }
            k += 1;
        }
        proof {
            assert(self@ =~= all_changed(old(self)@)) by {
                assert forall|i: int| 0 <= i < entries.len() implies self@[i] == all_changed(
                    old(self)@,
                )[i] by {
                    let slot = entries[i].1 as int;
                    assert(slots[slot] is Some);
                    assert(self.slots@[slot] is Some);
                }
            }
            assert(self.inner_wf()) by {
                assert forall|i: int| 0 <= i < entries.len() implies {
                    let slot = (#[trigger] entries[i]).1 as int;
                    slot < self.slots@.len() && self.slots@[slot] is Some
                } by {
                    let slot = entries[i].1 as int;
                    assert(slots[slot] is Some);
                    assert(self.slots@[slot] is Some);
                }
            }
            lemma_store_all_changed(old(self)@);
        }
    }

    /// Makes sure that a document is held, reading it if it is not. Returns whether it is.
    pub fn load(&mut self, url: &str, env: &Environment) -> (held: bool)
        requires
            old(self).wf(),
        ensures
            final(self).wf(),
            final(self)@ == with_loaded(old(self)@, url@, env@),
            held == (find(old(self)@, url@) is Some || env@.read(url@) is Some),
            held == find(final(self)@, url@) is Some,
    {
        proof {
            lemma_find(self@, url@);
        }
        if self.contains(url) {
            return true;
        }
        match env.read(url) {
            Some(code) => {
                self.insert_code(url.to_owned(), code);
                proof {
                    lemma_find_pushed(
                        without(trimmed_store(old(self)@), url@),
                        url@,
                        DocView::fresh(code@, url@),
                    );
                    lemma_find(self@, url@);
                }
                true
            },
            None => false,
        }
    }

    /// Reads a document again and holds it if it changed. Returns whether it could be read.
    pub fn read_and_cache(&mut self, url: &str, env: &Environment) -> (read: bool)
        requires
            old(self).wf(),
        ensures
            final(self).wf(),
            final(self)@ == with_reread(old(self)@, url@, env@),
            read == env@.read(url@) is Some,
    {
        let text: String = match env.read(url) {
            Some(text) => text,
            None => {
                return false;
            },
        };
        let same: bool = match self.get(url) {
            Some(doc) => doc.code == text,
            None => false,
        };
        if !same {
            self.insert_code(url.to_owned(), text);
        }
        true
    }
}

/// The key of a last entry is found.
pub proof fn lemma_find_pushed<V>(entries: Seq<(Seq<char>, V)>, key: Seq<char>, value: V)
    ensures
        find(entries.push((key, value)), key) is Some,
{
    let all = entries.push((key, value));
    lemma_find(all, key);
    if find(all, key) is None {
        assert(all[entries.len() as int].0 != key);
    }
}

/// A store without one of its documents is a store.
pub proof fn lemma_store_without(store: StoreView, url: Seq<char>)
    requires
        store_wf(store),
    ensures
        store_wf(without(store, url)),
{
    lemma_without(store, url);
    let rest = without(store, url);
    assert forall|i: int| 0 <= i < rest.len() implies (#[trigger] rest[i]).1.wf()
        && rest[i].1.url == rest[i].0 by {
        let j = choose|j: int| 0 <= j < store.len() && store[j] == rest[i];
        assert(store[j].1.wf());
    }
}

/// A store with one of its documents replaced by a fitting one is a store.
pub proof fn lemma_store_with_document(store: StoreView, url: Seq<char>, doc: DocView)
    requires
        store_wf(store),
        doc.wf(),
        doc.url == url,
    ensures
        store_wf(with_document(store, url, doc)),
{
    lemma_find(store, url);
    let now = with_document(store, url, doc);
    match find(store, url) {
        Some(k) => {
            assert forall|i: int, j: int| 0 <= i < j < now.len() implies (#[trigger] now[i]).0
                != (#[trigger] now[j]).0 by {
                assert(store[i].0 != store[j].0);
            }
            assert forall|i: int| 0 <= i < now.len() implies (#[trigger] now[i]).1.wf()
                && now[i].1.url == now[i].0 by {
                assert(store[i].1.wf());
            }
        },
        None => {},
    }
}

/// The place from which an entry comes once the one at `k` of `n` was moved to the end.
pub open spec fn moved(k: int, n: int, i: int) -> int {
    if i < k {
        i
    } else if i < n - 1 {
        i + 1
    } else {
        k
    }
}

/// Moving an entry to the end leaves the others in order.
pub proof fn lemma_moved<V>(entries: Seq<(Seq<char>, V)>, key: Seq<char>)
    ensures
        refreshed(entries, key).len() == entries.len(),
        find(entries, key) matches Some(k) ==> forall|i: int|
            0 <= i < entries.len() ==> (#[trigger] refreshed(entries, key)[i])
                == entries[moved(k, entries.len() as int, i)],
{
    lemma_find(entries, key);
}

/// A store in which a document was moved to the end is a store.
pub proof fn lemma_store_refreshed(store: StoreView, url: Seq<char>)
    requires
        store_wf(store),
    ensures
        store_wf(refreshed(store, url)),
{
    lemma_find(store, url);
    lemma_moved(store, url);
    let now = refreshed(store, url);
    match find(store, url) {
        Some(k) => {
            let n = store.len() as int;
            assert forall|i: int, j: int| 0 <= i < j < now.len() implies (#[trigger] now[i]).0 != (
            #[trigger] now[j]).0 by {
                let (a, b) = (moved(k, n, i), moved(k, n, j));
                assert(now[i] == store[a] && now[j] == store[b]);
                if a < b {
                    assert(store[a].0 != store[b].0);
                } else {
                    assert(store[b].0 != store[a].0);
                }
            }
            assert forall|i: int| 0 <= i < now.len() implies (#[trigger] now[i]).1.wf()
                && now[i].1.url == now[i].0 by {
                assert(now[i] == store[moved(k, n, i)]);
            }
        },
        None => {
            assert(now =~= store);
        },
    }
}

/// A store whose documents are out of date is a store.
pub proof fn lemma_store_all_changed(store: StoreView)
    requires
        store_wf(store),
    ensures
        store_wf(all_changed(store)),
{
    let now = all_changed(store);
    assert forall|i: int, j: int| 0 <= i < j < now.len() implies (#[trigger] now[i]).0 != (
    #[trigger] now[j]).0 by {
        assert(store[i].0 != store[j].0);
    }
    assert forall|i: int| 0 <= i < now.len() implies (#[trigger] now[i]).1.wf() && now[i].1.url
        == now[i].0 by {
        assert(store[i].1.wf());
    }
}

/// What is left of a store once the oldest documents are dropped is a store.
pub proof fn lemma_store_skip(store: StoreView, k: int)
    requires
        store_wf(store),
        0 <= k <= store.len(),
    ensures
        store_wf(store.skip(k)),
{
    let rest = store.skip(k);
    assert forall|i: int, j: int| 0 <= i < j < rest.len() implies (#[trigger] rest[i]).0 != (
    #[trigger] rest[j]).0 by {
        assert(rest[i] == store[i + k] && rest[j] == store[j + k]);
    }
    assert forall|i: int| 0 <= i < rest.len() implies (#[trigger] rest[i]).1.wf()
        && rest[i].1.url == rest[i].0 by {
        assert(rest[i] == store[i + k]);
    }
}

/// The tree of a new document fits, given that some document of the same text does.
pub proof fn lemma_store_with_code(store: StoreView, url: Seq<char>, code: Seq<char>)
    requires
        store_wf(store),
        DocView::fresh(code, url).wf(),
    ensures
        store_wf(with_code(store, url, code)),
{
    let kept = trimmed_store(store);
    if store.len() > CACHE_LIMIT {
        lemma_store_skip(store, store.len() - CACHE_LIMIT);
    }
    lemma_without(kept, url);
    let rest = without(kept, url);
    let all = with_code(store, url, code);
    assert forall|i: int| 0 <= i < all.len() implies (#[trigger] all[i]).1.wf() && all[i].1.url
        == all[i].0 by {
        if i < rest.len() {
            assert(all[i] == rest[i]);
            let j = choose|j: int| 0 <= j < kept.len() && kept[j] == rest[i];
            assert(kept[j].1.wf());
        }
    }
    assert forall|i: int, j: int| 0 <= i < j < all.len() implies (#[trigger] all[i]).0 != (
    #[trigger] all[j]).0 by {
        assert(all[i] == rest[i]);
        if j < rest.len() {
            assert(all[j] == rest[j]);
        }
    }
}

} // verus!
