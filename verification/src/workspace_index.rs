use std::collections::HashMap;
use vstd::hash_set::StringHashSet;
use vstd::prelude::*;

use crate::lists::{lemma_filter_all, lemma_filter_twice, lemma_no_longer, lemma_push_to_set};
use crate::parse_code::texts;
use crate::position::Range;
use crate::references::{Dependents, References};
use crate::symbols::{
    occurrence_views, Occurrence, OccurrenceView, RangeKey, ResolvedSymbol, ResolvedView,
    SymbolKey, SymbolView,
};
use crate::table::Table;

verus! {

broadcast use vstd::std_specs::hash::group_hash_axioms;

/// What the identifiers of a file stand for, by their ranges.
pub struct OccurrenceMap {
    symbols: HashMap<u128, ResolvedSymbol>,
}

impl View for OccurrenceMap {
    type V = Map<RangeKey, ResolvedView>;

    closed spec fn view(&self) -> Map<RangeKey, ResolvedView> {
        Map::new(
            |key: RangeKey| self.symbols@.contains_key(key.packed() as u128),
            |key: RangeKey| self.symbols@[key.packed() as u128]@,
        )
    }
}

impl OccurrenceMap {
    /// No identifiers.
    pub fn new() -> (map: OccurrenceMap)
        ensures
            map@ == Map::<RangeKey, ResolvedView>::empty(),
    {
        let map = OccurrenceMap { symbols: HashMap::new() };
        assert(map@ =~= Map::<RangeKey, ResolvedView>::empty());
        map
    }

    /// What the identifier at a range stands for.
    pub fn get(&self, key: &RangeKey) -> (symbol: Option<&ResolvedSymbol>)
        ensures
            match symbol {
                Some(symbol) => self@.contains_key(*key) && symbol@ == self@[*key],
                None => !self@.contains_key(*key),
            },
    {
        let number: u128 = key.pack();
        self.symbols.get(&number)
    }

    /// Sets what the identifier at a range stands for.
    pub fn insert(&mut self, key: &RangeKey, symbol: ResolvedSymbol)
        ensures
            final(self)@ == old(self)@.insert(*key, symbol@),
    {
        let number: u128 = key.pack();
        self.symbols.insert(number, symbol);
        proof {
            assert forall|other: RangeKey| other != *key implies other.packed() as u128 != number by {
                lemma_packed_fits(other);
                lemma_packed_fits(*key);
                if other.packed() == key.packed() {
                    RangeKey::lemma_packed_injective(other, *key);
                }
            }
            assert(self@ =~= old(self)@.insert(*key, symbol@));
        }
    }
}

/// A key fits into a number of its size.
proof fn lemma_packed_fits(key: RangeKey)
    ensures
        0 <= key.packed() <= u128::MAX,
{
}

/// What was found in a file.
pub struct FileAnalysis {
    pub dependencies: Vec<String>,
    pub occurrence_map: OccurrenceMap,
    pub resolved_occurrences: Vec<(SymbolKey, Occurrence)>,
}

/// The model of a [`FileAnalysis`].
#[verifier::ext_equal]
pub struct AnalysisView {
    pub dependencies: Seq<Seq<char>>,
    pub occurrences: Map<RangeKey, ResolvedView>,
    pub resolved: Seq<(SymbolView, OccurrenceView)>,
}

/// The models of a list of symbols with their places.
pub open spec fn resolved_views(list: Seq<(SymbolKey, Occurrence)>) -> Seq<
    (SymbolView, OccurrenceView),
> {
    list.map_values(|r: (SymbolKey, Occurrence)| (r.0@, r.1@))
}

impl View for FileAnalysis {
    type V = AnalysisView;

    open spec fn view(&self) -> AnalysisView {
        AnalysisView {
            dependencies: texts(self.dependencies@),
            occurrences: self.occurrence_map@,
            resolved: resolved_views(self.resolved_occurrences@),
        }
    }
}

/// The places of a list at which a symbol is named, in order.
pub open spec fn occurrences_of(list: Seq<(SymbolView, OccurrenceView)>, symbol: SymbolView) -> Seq<
    OccurrenceView,
>
    decreases list.len(),
{
    if list.len() == 0 {
        Seq::empty()
    } else {
        let earlier = occurrences_of(list.drop_last(), symbol);
        if list.last().0 == symbol {
            earlier.push(list.last().1)
        } else {
            earlier
        }
    }
}

/// The model of a [`WorkspaceIndex`].
#[verifier::ext_equal]
pub struct IndexView {
    pub files: Map<Seq<char>, AnalysisView>,
    /// The places at which a symbol is named.
    pub refs: spec_fn(SymbolView) -> Seq<OccurrenceView>,
    /// The files that depend on a file.
    pub dependents: spec_fn(Seq<char>) -> Set<Seq<char>>,
    pub initialized: bool,
}

impl IndexView {
    /// An index of no files.
    pub open spec fn empty() -> IndexView {
        IndexView {
            files: Map::empty(),
            refs: |symbol: SymbolView| Seq::empty(),
            dependents: |url: Seq<char>| Set::empty(),
            initialized: false,
        }
    }

    /// What the identifier at a range of a file stands for.
    pub open spec fn symbol_at(self, url: Seq<char>, range: Range) -> Option<ResolvedView> {
        if self.files.contains_key(url) && self.files[url].occurrences.contains_key(
            RangeKey::of(range),
        ) {
            Some(self.files[url].occurrences[RangeKey::of(range)])
        } else {
            None
        }
    }

    /// The index with what was found in a file added to it.
    pub open spec fn with_file(self, url: Seq<char>, analysis: AnalysisView) -> IndexView {
        IndexView {
            files: self.files.insert(url, analysis),
            refs: |symbol: SymbolView|
                (self.refs)(symbol) + occurrences_of(analysis.resolved, symbol),
            dependents: |dependency: Seq<char>|
                if analysis.dependencies.contains(dependency) {
                    (self.dependents)(dependency).insert(url)
                } else {
                    (self.dependents)(dependency)
                },
            initialized: self.initialized,
        }
    }

    /// The index with what was found in a file taken out of it.
    pub open spec fn without_file(self, url: Seq<char>) -> IndexView {
        if !self.files.contains_key(url) {
            self
        } else {
            let analysis = self.files[url];
            IndexView {
                files: self.files.remove(url),
                refs: |symbol: SymbolView|
                    (self.refs)(symbol).filter(
                        |o: OccurrenceView| !analysis.resolved.contains((symbol, o)),
                    ),
                dependents: |dependency: Seq<char>|
                    if analysis.dependencies.contains(dependency) {
                        (self.dependents)(dependency).remove(url)
                    } else {
                        (self.dependents)(dependency)
                    },
                initialized: self.initialized,
            }
        }
    }
}

/// Whether each file of a list depends on the one before it.
pub open spec fn chain(dependents: spec_fn(Seq<char>) -> Set<Seq<char>>, path: Seq<Seq<char>>) -> bool {
    path.len() >= 2 && forall|k: int|
        0 <= k < path.len() - 1 ==> dependents(#[trigger] path[k]).contains(path[k + 1])
}

/// The files that depend on a file, directly or through others.
pub open spec fn all_dependents(
    dependents: spec_fn(Seq<char>) -> Set<Seq<char>>,
    url: Seq<char>,
) -> Set<Seq<char>> {
    Set::new(
        |user: Seq<char>|
            exists|path: Seq<Seq<char>>| #[trigger]
                chain(dependents, path) && path[0] == url && path.last() == user,
    )
}

/// The symbols of the files of a workspace, and the places at which they are named.
pub struct WorkspaceIndex {
    files: Table<FileAnalysis>,
    refs_by_symbol: References,
    reverse_deps: Dependents,
    pub initialized: bool,
}

impl View for WorkspaceIndex {
    type V = IndexView;

    closed spec fn view(&self) -> IndexView {
        IndexView {
            files: self.files@.map_values(|a: FileAnalysis| a@),
            refs: self.refs_by_symbol@,
            dependents: self.reverse_deps@,
            initialized: self.initialized,
        }
    }
}

impl WorkspaceIndex {
    /// The tables behind the index are in order.
    pub closed spec fn wf(self) -> bool {
        self.files.wf() && self.refs_by_symbol.wf() && self.reverse_deps.wf()
    }

    /// An index of no files.
    pub fn new() -> (index: WorkspaceIndex)
        ensures
            index.wf(),
            index@ == IndexView::empty(),
    {
        let index = WorkspaceIndex {
            files: Table::new(),
            refs_by_symbol: References::new(),
            reverse_deps: Dependents::new(),
            initialized: false,
        };
        assert(index@ =~= IndexView::empty());
        index
    }

    /// Forgets all files.
    pub fn clear(&mut self)
        ensures
            final(self).wf(),
            final(self)@ == IndexView::empty(),
    {
        *self = WorkspaceIndex::new();
    }

    /// Marks the index as built.
    pub fn set_initialized(&mut self)
        requires
            old(self).wf(),
        ensures
            final(self).wf(),
            final(self)@ == (IndexView { initialized: true, ..old(self)@ }),
    {
        self.initialized = true;
    }

    /// Whether the index was built.
    pub fn is_initialized(&self) -> (r: bool)
        ensures
            r == self@.initialized,
    {
        self.initialized
    }

    /// Whether a file is in the index.
    pub fn contains_file(&self, url: &str) -> (r: bool)
        requires
            self.wf(),
        ensures
            r == self@.files.contains_key(url@),
    {
        self.files.contains_key(url)
    }

    /// What the identifier at a range of a file stands for.
    pub fn symbol_at(&self, url: &str, range: &Range) -> (symbol: Option<ResolvedSymbol>)
        requires
            self.wf(),
        ensures
            match symbol {
                Some(symbol) => self@.symbol_at(url@, *range) == Some(symbol@),
                None => self@.symbol_at(url@, *range) is None,
            },
    {
        match self.files.get(url) {
            Some(analysis) => match analysis.occurrence_map.get(&RangeKey::from(*range)) {
                Some(symbol) => Some(symbol.copy()),
                None => None,
            },
            None => None,
        }
    }

    /// The places at which a symbol is named.
    pub fn references_for(&self, symbol: &SymbolKey) -> (occurrences: Vec<Occurrence>)
        requires
            self.wf(),
        ensures
            occurrence_views(occurrences@) == (self@.refs)(symbol@),
    {
        self.refs_by_symbol.get(symbol)
    }

    /// Takes what was found in a file out of the index.
    pub fn remove_file(&mut self, url: &str)
        requires
            old(self).wf(),
        ensures
            final(self).wf(),
            final(self)@ == old(self)@.without_file(url@),
    {
        let ghost before = self@;
        let analysis: FileAnalysis = match self.files.take(url) {
            Some(analysis) => analysis,
            None => {
                assert(self@ =~= before);
                return;
            },
        };
        let ghost view = analysis@;
        let ghost dependents = self.reverse_deps@;
        let ghost refs = self.refs_by_symbol@;
        let ghost files = self.files@;
        let mut k: usize = 0;
        assert(self.reverse_deps@ =~= (|d: Seq<char>|
            if view.dependencies.take(0).contains(d) {
                dependents(d).remove(url@)
            } else {
                dependents(d)
            }));
        while k < analysis.dependencies.len()
            invariant
                k <= analysis.dependencies@.len(),
                self.wf(),
                view == analysis@,
                self.files@ == files,
                self.refs_by_symbol@ == refs,
                self.initialized == old(self).initialized,
                self.reverse_deps@ == (|d: Seq<char>|
                    if view.dependencies.take(k as int).contains(d) {
                        dependents(d).remove(url@)
                    } else {
                        dependents(d)
                    }),
            decreases analysis.dependencies@.len() - k,
        {
            let ghost now = self.reverse_deps@;
            self.reverse_deps.remove_user(analysis.dependencies[k].as_str(), url);
            proof {
                let here = analysis.dependencies@[k as int]@;
                lemma_take_contains(view.dependencies, k as int);
                assert forall|d: Seq<char>| #[trigger]
                    (self.reverse_deps@)(d) == (if view.dependencies.take(k + 1).contains(d) {
                        dependents(d).remove(url@)
                    } else {
                        dependents(d)
                    }) by {
                    assert(now(d) == (if view.dependencies.take(k as int).contains(d) {
                        dependents(d).remove(url@)
                    } else {
                        dependents(d)
                    }));
                    assert(dependents(d).remove(url@).remove(url@) =~= dependents(d).remove(url@));
                }
                assert(self.reverse_deps@ =~= (|d: Seq<char>|
                    if view.dependencies.take(k + 1).contains(d) {
                        dependents(d).remove(url@)
                    } else {
                        dependents(d)
                    }));
            }
            k += 1;
        }
        assert(view.dependencies.take(analysis.dependencies@.len() as int) =~= view.dependencies);
        let ghost rest = self.reverse_deps@;
        proof {
            assert forall|s: SymbolView| #[trigger] refs(s) == refs(s).filter(
                |o: OccurrenceView| !view.resolved.take(0).contains((s, o)),
            ) by {
                lemma_filter_all(
                    refs(s),
                    |o: OccurrenceView| !view.resolved.take(0).contains((s, o)),
                );
            }
            assert(refs =~= (|s: SymbolView|
                refs(s).filter(|o: OccurrenceView| !view.resolved.take(0).contains((s, o)))));
        }
        let mut j: usize = 0;
        while j < analysis.resolved_occurrences.len()
            invariant
                j <= analysis.resolved_occurrences@.len(),
                self.wf(),
                view == analysis@,
                self.files@ == files,
                self.reverse_deps@ == rest,
                self.initialized == old(self).initialized,
                self.refs_by_symbol@ == (|s: SymbolView|
                    refs(s).filter(
                        |o: OccurrenceView| !view.resolved.take(j as int).contains((s, o)),
                    )),
            decreases analysis.resolved_occurrences@.len() - j,
        {
            let ghost now = self.refs_by_symbol@;
            let found = &analysis.resolved_occurrences[j];
            self.refs_by_symbol.remove(&found.0, &found.1);
            proof {
                assert(view.resolved[j as int] == (found.0@, found.1@));
                lemma_take_contains(view.resolved, j as int);
                assert forall|s: SymbolView| #[trigger]
                    (self.refs_by_symbol@)(s) == refs(s).filter(
                        |o: OccurrenceView| !view.resolved.take(j + 1).contains((s, o)),
                    ) by {
                    let p = |o: OccurrenceView| !view.resolved.take(j as int).contains((s, o));
                    let q = |o: OccurrenceView| o != found.1@;
                    let both = |o: OccurrenceView| !view.resolved.take(j + 1).contains((s, o));
                    assert(now(s) == refs(s).filter(p));
                    if s == found.0@ {
                        lemma_filter_twice(refs(s), p, q);
                        assert((|o: OccurrenceView| p(o) && q(o)) =~= both);
                    } else {
                        assert(p =~= both);
                    }
                }
                assert(self.refs_by_symbol@ =~= (|s: SymbolView|
                    refs(s).filter(
                        |o: OccurrenceView| !view.resolved.take(j + 1).contains((s, o)),
                    )));
            }
            j += 1;
        }
        proof {
            assert(view.resolved.take(analysis.resolved_occurrences@.len() as int)
                =~= view.resolved);
            assert(self@.files =~= before.without_file(url@).files);
            assert(self@ =~= before.without_file(url@));
        }
    }

    /// Adds what was found in a file to the index.
    pub fn insert_file(&mut self, url: &str, analysis: FileAnalysis)
        requires
            old(self).wf(),
        ensures
            final(self).wf(),
            final(self)@ == old(self)@.with_file(url@, analysis@),
    {
        let ghost before = self@;
        let ghost view = analysis@;
        let ghost dependents = self.reverse_deps@;
        let ghost refs = self.refs_by_symbol@;
        let ghost files = self.files@;
        let mut k: usize = 0;
        assert(self.reverse_deps@ =~= (|d: Seq<char>|
            if view.dependencies.take(0).contains(d) {
                dependents(d).insert(url@)
            } else {
                dependents(d)
            }));
        while k < analysis.dependencies.len()
            invariant
                k <= analysis.dependencies@.len(),
                self.wf(),
                view == analysis@,
                self.files@ == files,
                self.refs_by_symbol@ == refs,
                self.initialized == old(self).initialized,
                self.reverse_deps@ == (|d: Seq<char>|
                    if view.dependencies.take(k as int).contains(d) {
                        dependents(d).insert(url@)
                    } else {
                        dependents(d)
                    }),
            decreases analysis.dependencies@.len() - k,
        {
            let ghost now = self.reverse_deps@;
            self.reverse_deps.add_user(analysis.dependencies[k].as_str(), url);
            proof {
                let here = analysis.dependencies@[k as int]@;
                lemma_take_contains(view.dependencies, k as int);
                assert forall|d: Seq<char>| #[trigger]
                    (self.reverse_deps@)(d) == (if view.dependencies.take(k + 1).contains(d) {
                        dependents(d).insert(url@)
                    } else {
                        dependents(d)
                    }) by {
                    assert(now(d) == (if view.dependencies.take(k as int).contains(d) {
                        dependents(d).insert(url@)
                    } else {
                        dependents(d)
                    }));
                    assert(dependents(d).insert(url@).insert(url@) =~= dependents(d).insert(url@));
                }
                assert(self.reverse_deps@ =~= (|d: Seq<char>|
                    if view.dependencies.take(k + 1).contains(d) {
                        dependents(d).insert(url@)
                    } else {
                        dependents(d)
                    }));
            }
            k += 1;
        }
        assert(view.dependencies.take(analysis.dependencies@.len() as int) =~= view.dependencies);
        let ghost rest = self.reverse_deps@;
        proof {
            assert forall|s: SymbolView| #[trigger] refs(s) == refs(s) + occurrences_of(
                view.resolved.take(0),
                s,
            ) by {
                assert(refs(s) =~= refs(s) + occurrences_of(view.resolved.take(0), s));
            }
            assert(refs =~= (|s: SymbolView| refs(s) + occurrences_of(view.resolved.take(0), s)));
        }
        let mut j: usize = 0;
        while j < analysis.resolved_occurrences.len()
            invariant
                j <= analysis.resolved_occurrences@.len(),
                self.wf(),
                view == analysis@,
                self.files@ == files,
                self.reverse_deps@ == rest,
                self.initialized == old(self).initialized,
                self.refs_by_symbol@ == (|s: SymbolView|
                    refs(s) + occurrences_of(view.resolved.take(j as int), s)),
            decreases analysis.resolved_occurrences@.len() - j,
        {
            let ghost now = self.refs_by_symbol@;
            let found = &analysis.resolved_occurrences[j];
            self.refs_by_symbol.push(&found.0, &found.1);
            proof {
                let longer = view.resolved.take(j + 1);
                assert(longer.drop_last() =~= view.resolved.take(j as int));
                assert(longer.last() == (found.0@, found.1@));
                assert forall|s: SymbolView| #[trigger]
                    (self.refs_by_symbol@)(s) == refs(s) + occurrences_of(longer, s) by {
                    let earlier = occurrences_of(view.resolved.take(j as int), s);
                    assert(now(s) == refs(s) + earlier);
                    assert((refs(s) + earlier).push(found.1@) =~= refs(s) + earlier.push(found.1@));
                }
                assert(self.refs_by_symbol@ =~= (|s: SymbolView|
                    refs(s) + occurrences_of(longer, s)));
            }
            j += 1;
        }
        assert(view.resolved.take(analysis.resolved_occurrences@.len() as int) =~= view.resolved);
        self.files.insert(url, analysis);
        proof {
            assert(self@.files =~= before.with_file(url@, view).files);
            assert(self@ =~= before.with_file(url@, view));
        }
    }
}

/// A chain that is one step longer.
proof fn lemma_chain_push(
    dependents: spec_fn(Seq<char>) -> Set<Seq<char>>,
    url: Seq<char>,
    middle: Seq<char>,
    user: Seq<char>,
)
    requires
        all_dependents(dependents, url).contains(middle),
        dependents(middle).contains(user),
    ensures
        all_dependents(dependents, url).contains(user),
{
    let path = choose|path: Seq<Seq<char>>| #[trigger]
        chain(dependents, path) && path[0] == url && path.last() == middle;
    let longer = path.push(user);
    assert forall|k: int| 0 <= k < longer.len() - 1 implies dependents(
        #[trigger] longer[k],
    ).contains(longer[k + 1]) by {
        assert(longer[k] == path[k]);
        if k < path.len() - 1 {
            assert(longer[k + 1] == path[k + 1]);
        }
    }
    assert(chain(dependents, longer) && longer[0] == url && longer.last() == user);
}

/// A chain of one step.
proof fn lemma_chain_one(
    dependents: spec_fn(Seq<char>) -> Set<Seq<char>>,
    url: Seq<char>,
    user: Seq<char>,
)
    requires
        dependents(url).contains(user),
    ensures
        all_dependents(dependents, url).contains(user),
{
    let path = seq![url, user];
    assert(chain(dependents, path) && path[0] == url && path.last() == user);
}

/// A list that holds the dependents of a file and those of all its elements holds every file
/// that a chain leads to.
proof fn lemma_closed(
    dependents: spec_fn(Seq<char>) -> Set<Seq<char>>,
    found: Seq<Seq<char>>,
    path: Seq<Seq<char>>,
    k: int,
)
    requires
        chain(dependents, path),
        0 < k < path.len(),
        forall|u: Seq<char>| dependents(path[0]).contains(u) ==> #[trigger] found.contains(u),
        forall|j: int, u: Seq<char>|
            0 <= j < found.len() && dependents(#[trigger] found[j]).contains(u)
                ==> #[trigger] found.contains(u),
    ensures
        found.contains(path[k]),
    decreases k,
{
    assert(dependents(path[k - 1]).contains(path[k - 1 + 1]));
    if k > 1 {
        lemma_closed(dependents, found, path, k - 1);
        let j = choose|j: int| 0 <= j < found.len() && found[j] == path[k - 1];
        assert(dependents(found[j]).contains(path[k]));
    }
}

impl WorkspaceIndex {
    /// Adds the files that depend on a file to a list.
    fn add_dependents(&self, url: &str, found: &mut Vec<String>, seen: &mut StringHashSet)
        requires
            self.wf(),
            texts(old(found)@).no_duplicates(),
            old(seen)@ == texts(old(found)@).to_set(),
        ensures
            texts(final(found)@).no_duplicates(),
            final(seen)@ == texts(final(found)@).to_set(),
            texts(old(found)@).is_prefix_of(texts(final(found)@)),
            texts(final(found)@).to_set() == texts(old(found)@).to_set().union(
                (self@.dependents)(url@),
            ),
    {
        let ghost start = texts(found@);
        let list: &Vec<String> = match self.reverse_deps.get(url) {
            Some(list) => list,
            None => {
                assert(start.to_set().union((self@.dependents)(url@)) =~= start.to_set());
                return;
            },
        };
        let ghost users = texts(list@);
        proof {
            assert(users.take(0).to_set() =~= Set::empty());
            assert(start.to_set().union(users.take(0).to_set()) =~= start.to_set());
        }
        let mut k: usize = 0;
        while k < list.len()
            invariant
                k <= list@.len(),
                users == texts(list@),
                texts(found@).no_duplicates(),
                seen@ == texts(found@).to_set(),
                start.is_prefix_of(texts(found@)),
                texts(found@).to_set() == start.to_set().union(users.take(k as int).to_set()),
            decreases list@.len() - k,
        {
            let ghost before = texts(found@);
            let ghost here = list@[k as int]@;
            proof {
                assert(users.take(k + 1) =~= users.take(k as int).push(here));
                lemma_push_to_set(users.take(k as int), here);
                lemma_push_to_set(before, here);
            }
            if !seen.contains(list[k].as_str()) {
                found.push(list[k].clone());
                seen.insert(list[k].clone());
                proof {
                    assert(texts(found@) =~= before.push(here));
                    assert(!before.contains(here)) by {
                        assert(!before.to_set().contains(here));
                    }
                    assert(start.is_prefix_of(before.push(here)));
                }
            } else {
                assert(before.to_set().contains(here));
                assert(before.to_set().insert(here) =~= before.to_set());
            }
            proof {
                assert(texts(found@).to_set() =~= start.to_set().union(
                    users.take(k + 1).to_set(),
                ));
            }
            k += 1;
        }
        assert(users.take(list@.len() as int) =~= users);
    }

    /// The files that depend on a file, directly or through others.
    pub fn collect_dependents(&self, url: &str) -> (found: Vec<String>)
        requires
            self.wf(),
        ensures
            texts(found@).no_duplicates(),
            texts(found@).to_set() == all_dependents(self@.dependents, url@),
    {
        let ghost dependents = self@.dependents;
        let ghost reached = all_dependents(dependents, url@);
        let mut found: Vec<String> = Vec::new();
        let mut seen = StringHashSet::new();
        assert(texts(found@).to_set() =~= Set::empty());
        self.add_dependents(url, &mut found, &mut seen);
        proof {
            assert forall|j: int| 0 <= j < texts(found@).len() implies reached.contains(
                #[trigger] texts(found@)[j],
            ) && self.reverse_deps.known().contains(texts(found@)[j]) by {
                assert(texts(found@).to_set().contains(texts(found@)[j]));
                assert(dependents(url@).contains(texts(found@)[j]));
                lemma_chain_one(dependents, url@, texts(found@)[j]);
                self.reverse_deps.lemma_known(url@, texts(found@)[j]);
            }
            assert forall|u: Seq<char>| dependents(url@).contains(u) implies #[trigger] texts(
                found@,
            ).contains(u) by {
                assert(texts(found@).to_set().contains(u));
            }
            lemma_no_longer(texts(found@), self.reverse_deps.known());
        }
        let mut next: usize = 0;
        while next < found.len()
            invariant
                next <= found@.len(),
                self.wf(),
                dependents == self@.dependents,
                dependents == self.reverse_deps@,
                reached == all_dependents(dependents, url@),
                texts(found@).no_duplicates(),
                seen@ == texts(found@).to_set(),
                found@.len() <= self.reverse_deps.known().len(),
                forall|j: int|
                    0 <= j < texts(found@).len() ==> reached.contains(#[trigger] texts(found@)[j])
                        && self.reverse_deps.known().contains(texts(found@)[j]),
                forall|u: Seq<char>|
                    dependents(url@).contains(u) ==> #[trigger] texts(found@).contains(u),
                forall|j: int, u: Seq<char>|
                    0 <= j < next && dependents(#[trigger] texts(found@)[j]).contains(u)
                        ==> #[trigger] texts(found@).contains(u),
            decreases self.reverse_deps.known().len() - next,
        {
            let ghost before = texts(found@);
            let current: String = found[next].clone();
            assert(before[next as int] == current@);
            self.add_dependents(current.as_str(), &mut found, &mut seen);
            proof {
                let now = texts(found@);
                assert forall|u: Seq<char>| before.contains(u) implies #[trigger] now.contains(u) by {
                    assert(before.to_set().contains(u));
                    assert(now.to_set().contains(u));
                }
                assert forall|j: int| 0 <= j < now.len() implies reached.contains(
                    #[trigger] now[j],
                ) && self.reverse_deps.known().contains(now[j]) by {
                    assert(now.to_set().contains(now[j]));
                    if before.to_set().contains(now[j]) {
                        let i = choose|i: int| 0 <= i < before.len() && before[i] == now[j];
                        assert(reached.contains(before[i]));
                    } else {
                        assert(dependents(current@).contains(now[j]));
                        lemma_chain_push(dependents, url@, current@, now[j]);
                        self.reverse_deps.lemma_known(current@, now[j]);
                    }
                }
                assert forall|j: int, u: Seq<char>|
                    0 <= j < next + 1 && dependents(#[trigger] now[j]).contains(u) implies
                    #[trigger] now.contains(u) by {
                    assert(now[j] == before[j]);
                    if j < next {
                        assert(before.contains(u));
                    } else {
                        assert(now.to_set().contains(u));
                    }
                }
                lemma_no_longer(now, self.reverse_deps.known());
            }
            next += 1;
        }
        proof {
            let all = texts(found@);
            assert forall|u: Seq<char>| all.to_set().contains(u) == reached.contains(u) by {
                if all.contains(u) {
                    let j = choose|j: int| 0 <= j < all.len() && all[j] == u;
                    assert(reached.contains(all[j]));
                }
                if reached.contains(u) {
                    let path = choose|path: Seq<Seq<char>>| #[trigger]
                        chain(dependents, path) && path[0] == url@ && path.last() == u;
                    lemma_closed(dependents, all, path, path.len() - 1);
                }
            }
            assert(all.to_set() =~= reached);
        }
        found
    }
}

/// What one more element of a list adds to what it holds.
proof fn lemma_take_contains<A>(list: Seq<A>, k: int)
    requires
        0 <= k < list.len(),
    ensures
        forall|x: A| #[trigger]
            list.take(k + 1).contains(x) == (list.take(k).contains(x) || x == list[k]),
{
    let shorter = list.take(k);
    let longer = list.take(k + 1);
    assert forall|x: A| #[trigger] longer.contains(x) == (shorter.contains(x) || x == list[k]) by {
        if shorter.contains(x) {
            let j = choose|j: int| 0 <= j < shorter.len() && shorter[j] == x;
            assert(longer[j] == x);
        }
        assert(longer[k] == list[k]);
        if longer.contains(x) {
            let j = choose|j: int| 0 <= j < longer.len() && longer[j] == x;
            if j < k {
                assert(shorter[j] == x);
            }
        }
    }
}

} // verus!
