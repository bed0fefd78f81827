//! The in-memory index: the current value of every key.
//!
//! The index keeps its entries in a vector and finds them through a hash map
//! from key to position, so that lookups, insertions and removals take
//! constant time and the keys can be listed without walking the hash map.

use vstd::hash_map::StringHashMap;
use vstd::prelude::*;

verus! {

/// What an index stands for: the value of every key that has one.
pub type State = Map<Seq<char>, Seq<u8>>;

/// One entry of the index.
struct Slot {
    key: String,
    value: Vec<u8>,
}

/// A map from text keys to byte values.
pub struct Index {
    /// The entries, in no particular order.
    slots: Vec<Slot>,
    /// For each key, the position of its entry in `slots`.
    places: StringHashMap<usize>,
}

impl View for Index {
    type V = State;

    /// The mapping that the index stands for.
    closed spec fn view(&self) -> State {
        Map::new(
            |k: Seq<char>| self.places@.contains_key(k),
            |k: Seq<char>| self.slots@[self.places@[k] as int].value@,
        )
    }
}

impl Index {
    /// The invariant of the representation: `places` and `slots` name each
    /// other, entry by entry.
    pub closed spec fn wf(&self) -> bool {
        &&& forall|i: int|
            0 <= i < self.slots@.len() ==> {
                &&& self.places@.contains_key(#[trigger] self.slots@[i].key@)
                &&& self.places@[self.slots@[i].key@] == i
            }
        &&& forall|k: Seq<char>| #[trigger]
            self.places@.contains_key(k) ==> {
                &&& self.places@[k] < self.slots@.len()
                &&& self.slots@[self.places@[k] as int].key@ == k
            }
    }

    /// An index without keys.
    pub fn new() -> (index: Index)
        ensures
            index.wf(),
            index@ == Map::<Seq<char>, Seq<u8>>::empty(),
    {
        let index = Index { slots: Vec::new(), places: StringHashMap::new() };
        assert(index@ =~= Map::<Seq<char>, Seq<u8>>::empty());
        index
    }

    /// The value of `key`, if it has one.
    pub fn get(&self, key: &str) -> (r: Option<&[u8]>)
        requires
            self.wf(),
        ensures
            match r {
                Some(value) => self@.contains_key(key@) && value@ == self@[key@],
                None => !self@.contains_key(key@),
            },
    {
        match self.places.get(key) {
            Some(place) => Some(self.slots[*place].value.as_slice()),
            None => None,
        }
    }

    /// Gives `key` the value `value`, whether or not it had one.
    pub fn insert(&mut self, key: String, value: Vec<u8>)
        requires
            old(self).wf(),
        ensures
            final(self).wf(),
            final(self)@ == old(self)@.insert(key@, value@),
    {
        let found = match self.places.get(key.as_str()) {
            Some(place) => Some(*place),
            None => None,
        };
        match found {
            Some(place) => {
                self.slots[place] = Slot { key, value };
            },
            None => {
                let place = self.slots.len();
                self.places.insert(key.clone(), place);
                self.slots.push(Slot { key, value });
            },
        }
        assert(self@ =~= old(self)@.insert(key@, value@));
    }

    /// Takes the value of `key` away, if it has one.
    pub fn remove(&mut self, key: &str)
        requires
            old(self).wf(),
        ensures
            final(self).wf(),
            final(self)@ == old(self)@.remove(key@),
    {
        let found = match self.places.get(key) {
            Some(place) => Some(*place),
            None => None,
        };
        match found {
            Some(place) => {
                self.places.remove(key);
                self.slots.swap_remove(place);
                if place < self.slots.len() {
                    let moved = self.slots[place].key.clone();
                    self.places.insert(moved, place);
                }
            },
            None => {},
        }
        assert(self@ =~= old(self)@.remove(key@));
    }

    /// The keys that have a value, each once, in no particular order.
    pub fn keys(&self) -> (keys: Vec<String>)
        requires
            self.wf(),
        ensures
            keys.deep_view().no_duplicates(),
            keys.deep_view().to_set() == self@.dom(),
            keys@.len() == self@.len(),
    {
        let mut keys: Vec<String> = Vec::new();
        let mut i: usize = 0;
        while i < self.slots.len()
            invariant
                self.wf(),
                i <= self.slots@.len(),
                keys@.len() == i,
                forall|j: int| 0 <= j < i ==> (#[trigger] keys@[j])@ == self.slots@[j].key@,
            decreases self.slots@.len() - i,
        {
            keys.push(self.slots[i].key.clone());
            i += 1;
        }
        proof {
            let views = keys.deep_view();
            assert forall|a: int, b: int| 0 <= a < views.len() && 0 <= b < views.len() && a != b
                implies views[a] != views[b] by {
                assert(views[a] == self.slots@[a].key@);
                assert(views[b] == self.slots@[b].key@);
            }
            assert forall|k: Seq<char>| views.to_set().contains(k) <==> self@.dom().contains(
                k,
            ) by {
                if views.to_set().contains(k) {
                    let a = choose|a: int| 0 <= a < views.len() && views[a] == k;
                    assert(views[a] == self.slots@[a].key@);
                }
                if self@.dom().contains(k) {
                    let a = self.places@[k] as int;
                    assert(views[a] == k);
                }
            }
            assert(views.to_set() =~= self@.dom());
            views.unique_seq_to_set();
        }
        keys
    }
}

} // verus!
