use vstd::hash_map::StringHashMap;
use vstd::prelude::*;

verus! {

/// Values under texts, which can be taken out, changed and put back.
pub struct Table<V> {
    places: StringHashMap<usize>,
    slots: Vec<Option<V>>,
}

impl<V> View for Table<V> {
    type V = Map<Seq<char>, V>;

    closed spec fn view(&self) -> Map<Seq<char>, V> {
        Map::new(
            |key: Seq<char>|
                self.places@.contains_key(key) && self.slots@[self.places@[key] as int] is Some,
            |key: Seq<char>| self.slots@[self.places@[key] as int]->0,
        )
    }
}

impl<V> Table<V> {
    /// Each text has a slot of its own.
    pub closed spec fn wf(self) -> bool {
        &&& forall|key: Seq<char>| #[trigger]
            self.places@.contains_key(key) ==> self.places@[key] < self.slots@.len()
        &&& forall|a: Seq<char>, b: Seq<char>|
            self.places@.contains_key(a) && self.places@.contains_key(b) && #[trigger] self.places@[a]
                == #[trigger] self.places@[b] ==> a == b
    }

    /// The slots for values.
    pub closed spec fn cells(self) -> Seq<Option<V>> {
        self.slots@
    }

    /// Each value stands in a slot.
    pub proof fn lemma_cell(self, key: Seq<char>) -> (place: int)
        requires
            self.wf(),
            self@.contains_key(key),
        ensures
            0 <= place < self.cells().len(),
            self.cells()[place] == Some(self@[key]),
    {
        self.places@[key] as int
    }

    /// A table without values.
    pub fn new() -> (table: Table<V>)
        ensures
            table.wf(),
            table@ == Map::<Seq<char>, V>::empty(),
    {
        let table = Table { places: StringHashMap::new(), slots: Vec::new() };
        assert(table@ =~= Map::<Seq<char>, V>::empty());
        table
    }

    /// Whether there is a value under a text.
    pub fn contains_key(&self, key: &str) -> (r: bool)
        requires
            self.wf(),
        ensures
            r == self@.contains_key(key@),
    {
        match self.places.get(key) {
            Some(place) => self.slots[*place].is_some(),
            None => false,
        }
    }

    /// The value under a text.
    pub fn get(&self, key: &str) -> (value: Option<&V>)
        requires
            self.wf(),
        ensures
            match value {
                Some(value) => self@.contains_key(key@) && *value == self@[key@],
                None => !self@.contains_key(key@),
            },
    {
        match self.places.get(key) {
            Some(place) => self.slots[*place].as_ref(),
            None => None,
        }
    }

    /// Puts a value under a text.
    pub fn insert(&mut self, key: &str, value: V)
        requires
            old(self).wf(),
        ensures
            final(self).wf(),
            final(self)@ == old(self)@.insert(key@, value),
    {
        let place: Option<usize> = match self.places.get(key) {
            Some(place) => Some(*place),
            None => None,
        };
        match place {
            Some(place) => {
                self.slots.set(place, Some(value));
            },
            None => {
                let place: usize = self.slots.len();
                self.slots.push(Some(value));
                self.places.insert(key.to_owned(), place);
            },
        }
        assert(self@ =~= old(self)@.insert(key@, value));
    }

    /// Takes the value under a text out.
    pub fn take(&mut self, key: &str) -> (value: Option<V>)
        requires
            old(self).wf(),
        ensures
            final(self).wf(),
            final(self)@ == old(self)@.remove(key@),
            match value {
                Some(value) => old(self)@.contains_key(key@) && value == old(self)@[key@],
                None => !old(self)@.contains_key(key@),
            },
    {
        let value: Option<V> = match self.places.get(key) {
            Some(place) => {
                let place: usize = *place;
                self.slots[place].take()
            },
            None => None,
        };
        assert(self@ =~= old(self)@.remove(key@));
        value
    }
}

} // verus!
