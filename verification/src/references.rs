use vstd::prelude::*;

use crate::lists::lemma_push_to_set;
use crate::parse_code::texts;
use crate::resolve::holds_text;
use crate::symbols::{
    copy_occurrences, occurrence_views, Occurrence, OccurrenceView, SymbolKey, SymbolView,
};
use crate::table::Table;
use crate::text::same_text;

verus! {

/// A symbol and the places where it is named.
pub struct RefEntry {
    pub symbol: SymbolKey,
    pub occurrences: Vec<Occurrence>,
}

/// The first entry of a symbol from place `k` on.
pub open spec fn entry_from(entries: Seq<RefEntry>, symbol: SymbolView, k: int) -> Option<int>
    decreases entries.len() - k,
{
    if k < 0 || k >= entries.len() {
        None
    } else if entries[k].symbol@ == symbol {
        Some(k)
    } else {
        entry_from(entries, symbol, k + 1)
    }
}

/// The places that the first entry of a symbol lists.
pub open spec fn entry_occurrences(entries: Seq<RefEntry>, symbol: SymbolView) -> Seq<
    OccurrenceView,
> {
    match entry_from(entries, symbol, 0) {
        Some(i) => occurrence_views(entries[i].occurrences@),
        None => Seq::empty(),
    }
}

/// What [`entry_from`] finds is the first entry of the symbol.
proof fn lemma_entry_from(entries: Seq<RefEntry>, symbol: SymbolView, k: int)
    requires
        0 <= k,
    ensures
        match entry_from(entries, symbol, k) {
            Some(i) => k <= i < entries.len() && entries[i].symbol@ == symbol && forall|j: int|
                k <= j < i ==> (#[trigger] entries[j]).symbol@ != symbol,
            None => forall|j: int| k <= j < entries.len() ==> (#[trigger] entries[j]).symbol@
                != symbol,
        },
    decreases entries.len() - k,
{
    if k < entries.len() && entries[k].symbol@ != symbol {
        lemma_entry_from(entries, symbol, k + 1);
    }
}

/// Entries of the same symbols in the same order are found in the same places.
proof fn lemma_entry_same(a: Seq<RefEntry>, b: Seq<RefEntry>, symbol: SymbolView)
    requires
        a.len() == b.len(),
        forall|j: int| 0 <= j < a.len() ==> (#[trigger] a[j]).symbol@ == (#[trigger] b[j]).symbol@,
    ensures
        entry_from(a, symbol, 0) == entry_from(b, symbol, 0),
{
    lemma_entry_from(a, symbol, 0);
    lemma_entry_from(b, symbol, 0);
    if let Some(i) = entry_from(a, symbol, 0) {
        assert(b[i].symbol@ == symbol);
        if let Some(j) = entry_from(b, symbol, 0) {
            assert(a[j].symbol@ == symbol);
        }
    } else if let Some(j) = entry_from(b, symbol, 0) {
        assert(a[j].symbol@ == symbol);
    }
}

/// A new entry at the end is found if and only if there was none before.
proof fn lemma_entry_pushed(entries: Seq<RefEntry>, entry: RefEntry, symbol: SymbolView)
    ensures
        entry_from(entries.push(entry), symbol, 0) == (match entry_from(entries, symbol, 0) {
            Some(i) => Some(i),
            None => if entry.symbol@ == symbol {
                Some(entries.len() as int)
            } else {
                None
            },
        }),
{
    let more = entries.push(entry);
    lemma_entry_from(entries, symbol, 0);
    lemma_entry_from(more, symbol, 0);
    if let Some(i) = entry_from(entries, symbol, 0) {
        assert(more[i] == entries[i]);
        if let Some(j) = entry_from(more, symbol, 0) {
            if j < entries.len() {
                assert(more[j] == entries[j]);
            }
        }
    } else {
        assert(more[entries.len() as int] == entry);
        if let Some(j) = entry_from(more, symbol, 0) {
            if j < entries.len() {
                assert(more[j] == entries[j]);
            }
        }
    }
}

/// The first entry of a symbol.
fn find_entry(entries: &Vec<RefEntry>, symbol: &SymbolKey) -> (place: Option<usize>)
    ensures
        crate::cursor::node_index(place) == entry_from(entries@, symbol@, 0),
        place is Some ==> place->0 < entries@.len(),
{
    let mut k: usize = 0;
    while k < entries.len()
        invariant
            k <= entries@.len(),
            entry_from(entries@, symbol@, 0) == entry_from(entries@, symbol@, k as int),
        decreases entries@.len() - k,
    {
        if entries[k].symbol.same(symbol) {
            return Some(k);
        }
        k += 1;
    }
    None
}

/// A list without an element.
pub open spec fn without_occurrence(list: Seq<OccurrenceView>, occurrence: OccurrenceView) -> Seq<
    OccurrenceView,
> {
    list.filter(|o: OccurrenceView| o != occurrence)
}

/// A list without an element.
fn remove_occurrence(list: Vec<Occurrence>, occurrence: &Occurrence) -> (rest: Vec<Occurrence>)
    ensures
        occurrence_views(rest@) == without_occurrence(occurrence_views(list@), occurrence@),
{
    let ghost all = occurrence_views(list@);
    let ghost pred = |o: OccurrenceView| o != occurrence@;
    let mut rest: Vec<Occurrence> = Vec::new();
    proof {
        reveal(Seq::filter);
        assert(all.take(0) =~= Seq::<OccurrenceView>::empty());
        assert(occurrence_views(rest@) =~= all.take(0).filter(pred));
    }
    let mut i: usize = 0;
    while i < list.len()
        invariant
            i <= list@.len(),
            all == occurrence_views(list@),
            pred == (|o: OccurrenceView| o != occurrence@),
            occurrence_views(rest@) == all.take(i as int).filter(pred),
        decreases list@.len() - i,
    {
        let ghost before = rest@;
        proof {
            reveal(Seq::filter);
            assert(all.take(i + 1).drop_last() =~= all.take(i as int));
            assert(all.take(i + 1).last() == list@[i as int]@);
        }
        if !list[i].same(occurrence) {
            let copy = list[i].copy();
            rest.push(copy);
            assert(occurrence_views(rest@) =~= occurrence_views(before).push(copy@));
        }
        i += 1;
    }
    assert(all.take(list@.len() as int) =~= all);
    rest
}

/// The places where symbols are named.
pub struct References {
    buckets: Table<Vec<RefEntry>>,
}

impl View for References {
    type V = spec_fn(SymbolView) -> Seq<OccurrenceView>;

    closed spec fn view(&self) -> spec_fn(SymbolView) -> Seq<OccurrenceView> {
        |symbol: SymbolView|
            if self.buckets@.contains_key(symbol.name) {
                entry_occurrences(self.buckets@[symbol.name]@, symbol)
            } else {
                Seq::empty()
            }
    }
}

impl References {
    /// The table behind the references is in order.
    pub closed spec fn wf(self) -> bool {
        self.buckets.wf()
    }

    /// No symbol is named anywhere.
    pub fn new() -> (references: References)
        ensures
            references.wf(),
            references@ == (|symbol: SymbolView| Seq::<OccurrenceView>::empty()),
    {
        let references = References { buckets: Table::new() };
        assert(references@ =~= (|symbol: SymbolView| Seq::<OccurrenceView>::empty()));
        references
    }

    /// The places where a symbol is named.
    pub fn get(&self, symbol: &SymbolKey) -> (occurrences: Vec<Occurrence>)
        requires
            self.wf(),
        ensures
            occurrence_views(occurrences@) == self@(symbol@),
    {
        match self.buckets.get(symbol.name.as_str()) {
            Some(bucket) => match find_entry(bucket, symbol) {
                Some(i) => copy_occurrences(&bucket[i].occurrences),
                None => {
                    let none: Vec<Occurrence> = Vec::new();
                    assert(occurrence_views(none@) =~= Seq::<OccurrenceView>::empty());
                    none
                },
            },
            None => {
                let none: Vec<Occurrence> = Vec::new();
                assert(occurrence_views(none@) =~= Seq::<OccurrenceView>::empty());
                none
            },
        }
    }

    /// Adds a place where a symbol is named.
    pub fn push(&mut self, symbol: &SymbolKey, occurrence: &Occurrence)
        requires
            old(self).wf(),
        ensures
            final(self).wf(),
            final(self)@ == (|s: SymbolView|
                if s == symbol@ {
                    old(self)@(s).push(occurrence@)
                } else {
                    old(self)@(s)
                }),
    {
        let taken = self.buckets.take(symbol.name.as_str());
        let mut bucket: Vec<RefEntry> = match taken {
            Some(bucket) => bucket,
            None => Vec::new(),
        };
        let ghost entries = bucket@;
        let place = find_entry(&bucket, symbol);
        proof {
            lemma_entry_from(entries, symbol@, 0);
        }
        match place {
            Some(i) => {
                let copy = occurrence.copy();
                let ghost list = bucket@[i as int].occurrences@;
                bucket[i].occurrences.push(copy);
                proof {
                    assert(bucket@[i as int].occurrences@ == list.push(copy));
                    assert(occurrence_views(bucket@[i as int].occurrences@) =~= occurrence_views(
                        list,
                    ).push(copy@));
                    assert forall|s: SymbolView| #[trigger] entry_from(bucket@, s, 0) == entry_from(
                        entries,
                        s,
                        0,
                    ) by {
                        lemma_entry_same(bucket@, entries, s);
                    }
                    assert forall|s: SymbolView| #[trigger]
                        entry_occurrences(bucket@, s) == (if s == symbol@ {
                            entry_occurrences(entries, s).push(occurrence@)
                        } else {
                            entry_occurrences(entries, s)
                        }) by {
                        lemma_entry_from(entries, s, 0);
                        assert(entry_from(bucket@, s, 0) == entry_from(entries, s, 0));
                        if let Some(j) = entry_from(entries, s, 0) {
                            assert(j != i ==> bucket@[j] == entries[j]);
                        }
                    }
                }
            },
            None => {
                let mut list: Vec<Occurrence> = Vec::new();
                list.push(occurrence.copy());
                let entry = RefEntry { symbol: symbol.copy(), occurrences: list };
                bucket.push(entry);
                proof {
                    assert(occurrence_views(list@) =~= Seq::<OccurrenceView>::empty().push(
                        occurrence@,
                    ));
                    assert forall|s: SymbolView|
                        #![trigger entry_from(bucket@, s, 0)]
                        entry_from(bucket@, s, 0) == (match entry_from(entries, s, 0) {
                            Some(i) => Some(i),
                            None => if s == symbol@ {
                                Some(entries.len() as int)
                            } else {
                                None
                            },
                        }) by {
                        lemma_entry_pushed(entries, entry, s);
                    }
                    assert forall|s: SymbolView| #[trigger]
                        entry_occurrences(bucket@, s) == (if s == symbol@ {
                            entry_occurrences(entries, s).push(occurrence@)
                        } else {
                            entry_occurrences(entries, s)
                        }) by {
                        lemma_entry_pushed(entries, entry, s);
                        lemma_entry_from(entries, s, 0);
                        if let Some(j) = entry_from(entries, s, 0) {
                            assert(bucket@[j] == entries[j]);
                        }
                    }
                }
            },
        }
        proof {
            assert forall|s: SymbolView| entry_occurrences(Seq::empty(), s) =~= Seq::<
                OccurrenceView,
            >::empty() by {}
            assert(taken is None ==> entries =~= Seq::empty());
        }
        self.buckets.insert(symbol.name.as_str(), bucket);
        assert(self@ =~= (|s: SymbolView|
            if s == symbol@ {
                old(self)@(s).push(occurrence@)
            } else {
                old(self)@(s)
            }));
    }

    /// Takes a place where a symbol is named out.
    pub fn remove(&mut self, symbol: &SymbolKey, occurrence: &Occurrence)
        requires
            old(self).wf(),
        ensures
            final(self).wf(),
            final(self)@ == (|s: SymbolView|
                if s == symbol@ {
                    without_occurrence(old(self)@(s), occurrence@)
                } else {
                    old(self)@(s)
                }),
    {
        proof {
            reveal(Seq::filter);
            assert(without_occurrence(Seq::empty(), occurrence@) =~= Seq::empty());
        }
        match self.buckets.take(symbol.name.as_str()) {
            Some(taken) => {
                let mut bucket: Vec<RefEntry> = taken;
                let ghost entries = bucket@;
                proof {
                    lemma_entry_from(entries, symbol@, 0);
                }
                match find_entry(&bucket, symbol) {
                    Some(i) => {
                        let list = copy_occurrences(&bucket[i].occurrences);
                        bucket[i].occurrences = remove_occurrence(list, occurrence);
                        proof {
                            assert forall|s: SymbolView| #[trigger]
                                entry_from(bucket@, s, 0) == entry_from(entries, s, 0) by {
                                lemma_entry_same(bucket@, entries, s);
                            }
                        }
                    },
                    None => {},
                }
                proof {
                    assert forall|s: SymbolView| #[trigger]
                        entry_occurrences(bucket@, s) == (if s == symbol@ {
                            without_occurrence(entry_occurrences(entries, s), occurrence@)
                        } else {
                            entry_occurrences(entries, s)
                        }) by {
                        lemma_entry_from(entries, s, 0);
                    }
                }
                self.buckets.insert(symbol.name.as_str(), bucket);
            },
            None => {},
        }
        assert(self@ =~= (|s: SymbolView|
            if s == symbol@ {
                without_occurrence(old(self)@(s), occurrence@)
            } else {
                old(self)@(s)
            }));
    }
}

/// The files that depend on files.
pub struct Dependents {
    lists: Table<Vec<String>>,
}

impl View for Dependents {
    type V = spec_fn(Seq<char>) -> Set<Seq<char>>;

    closed spec fn view(&self) -> spec_fn(Seq<char>) -> Set<Seq<char>> {
        |url: Seq<char>|
            if self.lists@.contains_key(url) {
                texts(self.lists@[url]@).to_set()
            } else {
                Set::empty()
            }
    }
}

/// The texts of a list of lists, one after the other.
pub open spec fn all_texts(lists: Seq<Option<Vec<String>>>) -> Seq<Seq<char>>
    decreases lists.len(),
{
    if lists.len() == 0 {
        Seq::empty()
    } else {
        all_texts(lists.drop_last()) + (match lists.last() {
            Some(list) => texts(list@),
            None => Seq::empty(),
        })
    }
}

/// The texts of each list are among all texts.
proof fn lemma_all_texts(lists: Seq<Option<Vec<String>>>, place: int, k: int)
    requires
        0 <= place < lists.len(),
        lists[place] is Some,
        0 <= k < lists[place]->0@.len(),
    ensures
        all_texts(lists).contains(lists[place]->0@[k]@),
    decreases lists.len(),
{
    let text = lists[place]->0@[k]@;
    let earlier = all_texts(lists.drop_last());
    if place == lists.len() - 1 {
        assert(texts(lists.last()->0@)[k] == text);
        assert(all_texts(lists)[earlier.len() + k] == text);
    } else {
        lemma_all_texts(lists.drop_last(), place, k);
        let j = choose|j: int| 0 <= j < earlier.len() && earlier[j] == text;
        assert(all_texts(lists)[j] == text);
    }
}

impl Dependents {
    /// The table behind the lists is in order.
    pub closed spec fn wf(self) -> bool {
        self.lists.wf()
    }

    /// A list that holds all files that depend on some file.
    pub closed spec fn known(self) -> Seq<Seq<char>> {
        all_texts(self.lists.cells())
    }

    /// A file that depends on another is among all that do.
    pub proof fn lemma_known(self, url: Seq<char>, dependent: Seq<char>)
        requires
            self.wf(),
            self@(url).contains(dependent),
        ensures
            self.known().contains(dependent),
    {
        let place = self.lists.lemma_cell(url);
        let list = self.lists@[url]@;
        let k = choose|k: int| 0 <= k < texts(list).len() && texts(list)[k] == dependent;
        lemma_all_texts(self.lists.cells(), place, k);
    }

    /// No file depends on another.
    pub fn new() -> (dependents: Dependents)
        ensures
            dependents.wf(),
            dependents@ == (|url: Seq<char>| Set::<Seq<char>>::empty()),
    {
        let dependents = Dependents { lists: Table::new() };
        assert(dependents@ =~= (|url: Seq<char>| Set::<Seq<char>>::empty()));
        dependents
    }

    /// The files that depend on a file.
    pub fn get(&self, url: &str) -> (list: Option<&Vec<String>>)
        requires
            self.wf(),
        ensures
            match list {
                Some(list) => texts(list@).to_set() == self@(url@),
                None => self@(url@) == Set::<Seq<char>>::empty(),
            },
    {
        self.lists.get(url)
    }

    /// Adds a file that depends on another.
    pub fn add_user(&mut self, url: &str, user: &str)
        requires
            old(self).wf(),
        ensures
            final(self).wf(),
            final(self)@ == (|u: Seq<char>|
                if u == url@ {
                    old(self)@(u).insert(user@)
                } else {
                    old(self)@(u)
                }),
    {
        let taken = self.lists.take(url);
        let mut list: Vec<String> = match taken {
            Some(list) => list,
            None => Vec::new(),
        };
        let ghost before = texts(list@);
        if !holds_text(&list, user) {
            list.push(user.to_owned());
            proof {
                assert(texts(list@) =~= before.push(user@));
                lemma_push_to_set(before, user@);
            }
        }
        proof {
            assert(texts(list@).to_set() =~= before.to_set().insert(user@));
            assert(taken is None ==> before =~= Seq::empty());
            assert(taken is None ==> before.to_set() =~= Set::empty());
        }
        self.lists.insert(url, list);
        assert(self@ =~= (|u: Seq<char>|
            if u == url@ {
                old(self)@(u).insert(user@)
            } else {
                old(self)@(u)
            }));
    }

    /// Takes a file out of those that depend on another.
    pub fn remove_user(&mut self, url: &str, user: &str)
        requires
            old(self).wf(),
        ensures
            final(self).wf(),
            final(self)@ == (|u: Seq<char>|
                if u == url@ {
                    old(self)@(u).remove(user@)
                } else {
                    old(self)@(u)
                }),
    {
        match self.lists.take(url) {
            Some(list) => {
                let ghost before = texts(list@);
                let mut rest: Vec<String> = Vec::new();
                assert(texts(rest@).to_set() =~= before.take(0).to_set().remove(user@));
                let mut i: usize = 0;
                while i < list.len()
                    invariant
                        i <= list@.len(),
                        before == texts(list@),
                        texts(rest@).to_set() == before.take(i as int).to_set().remove(user@),
                    decreases list@.len() - i,
                {
                    let ghost kept = texts(rest@);
                    let ghost here = list@[i as int]@;
                    proof {
                        assert(before.take(i + 1) =~= before.take(i as int).push(here));
                        lemma_push_to_set(before.take(i as int), here);
                        lemma_push_to_set(kept, here);
                    }
                    if !same_text(list[i].as_str(), user) {
                        rest.push(list[i].clone());
                        assert(texts(rest@) =~= kept.push(here));
                    }
                    proof {
                        let earlier = before.take(i as int).to_set();
                        if here == user@ {
                            assert(earlier.insert(here).remove(user@) =~= earlier.remove(user@));
                        } else {
                            assert(earlier.insert(here).remove(user@) =~= earlier.remove(
                                user@,
                            ).insert(here));
                        }
                    }
                    i += 1;
                }
                proof {
                    assert(before.take(list@.len() as int) =~= before);
                }
                self.lists.insert(url, rest);
            },
            None => {
                assert(Set::<Seq<char>>::empty().remove(user@) =~= Set::empty());
            },
        }
        assert(self@ =~= (|u: Seq<char>|
            if u == url@ {
                old(self)@(u).remove(user@)
            } else {
                old(self)@(u)
            }));
    }
}

} // verus!
