//! A map from model names to rates.
use crate::rate::Rate;
use vstd::hash_map::StringHashMap;
use vstd::prelude::*;

verus! {

/// Rates by name. Names are kept in the order in which they first came.
pub struct RateMap {
    names: Vec<String>,
    rates: Vec<Rate>,
    places: StringHashMap<usize>,
}

impl View for RateMap {
    type V = Map<Seq<char>, Rate>;

    closed spec fn view(&self) -> Map<Seq<char>, Rate> {
        Map::new(
            |name: Seq<char>| self.places@.contains_key(name),
            |name: Seq<char>| self.rates@[self.places@[name] as int],
        )
    }
}

impl RateMap {
    /// Each name has one rate, and `places` says where.
    pub closed spec fn wf(&self) -> bool {
        &&& self.names@.len() == self.rates@.len()
        &&& forall|i: int|
            0 <= i < self.names@.len() ==> self.places@.contains_key(
                #[trigger] self.names@[i]@,
            ) && self.places@[self.names@[i]@] == i
        &&& forall|name: Seq<char>| #[trigger]
            self.places@.contains_key(name) ==> {
                &&& self.places@[name] < self.names@.len()
                &&& self.names@[self.places@[name] as int]@ == name
            }
    }

    /// The names, in the order in which they first came.
    pub closed spec fn order(&self) -> Seq<Seq<char>> {
        self.names@.map_values(|name: String| name@)
    }

    /// Every name stands once in the order.
    pub proof fn lemma_order(&self)
        requires
            self.wf(),
        ensures
            forall|i: int|
                0 <= i < self.order().len() ==> self@.contains_key(#[trigger] self.order()[i]),
            forall|name: Seq<char>|
                self@.contains_key(name) ==> #[trigger] self.order().contains(name),
            self.order().no_duplicates(),
    {
        assert forall|name: Seq<char>| self@.contains_key(name) implies #[trigger]
            self.order().contains(name) by {
            let at = self.places@[name] as int;
            assert(self.order()[at] == name);
        }
        assert forall|i: int, j: int|
            0 <= i < self.order().len() && 0 <= j < self.order().len() && i != j implies
            self.order()[i] != self.order()[j] by {
            assert(self.places@[self.names@[i]@] == i);
            assert(self.places@[self.names@[j]@] == j);
        }
    }

    pub fn new() -> (map: RateMap)
        ensures
            map.wf(),
            map@ == Map::<Seq<char>, Rate>::empty(),
            map.order().len() == 0,
    {
        let map: RateMap = RateMap {
            names: Vec::new(),
            rates: Vec::new(),
            places: StringHashMap::new(),
        };
        assert(map@ =~= Map::<Seq<char>, Rate>::empty());
        map
    }

    /// How many names there are.
    pub fn len(&self) -> (length: usize)
        requires
            self.wf(),
        ensures
            length == self@.len(),
            length == self.order().len(),
    {
        proof {
            assert(self@.dom() =~= self.places@.dom());
            self.lemma_order();
            assert(self.order().to_set() =~= self@.dom());
            self.order().unique_seq_to_set();
        }
        self.names.len()
    }

    pub fn is_empty(&self) -> (empty: bool)
        requires
            self.wf(),
        ensures
            empty == self@.is_empty(),
    {
        assert(self@.dom() =~= self.places@.dom());
        self.places.is_empty()
    }

    pub fn contains_key(&self, name: &str) -> (found: bool)
        requires
            self.wf(),
        ensures
            found == self@.contains_key(name@),
    {
        self.places.contains_key(name)
    }

    pub fn get(&self, name: &str) -> (rate: Option<Rate>)
        requires
            self.wf(),
        ensures
            rate == (if self@.contains_key(name@) {
                Some(self@[name@])
            } else {
                None
            }),
    {
        match self.places.get(name) {
            Some(at) => Some(self.rates[*at]),
            None => None,
        }
    }

    /// The name and the rate at a place in the order.
    pub fn at(&self, place: usize) -> (entry: (&String, Rate))
        requires
            self.wf(),
            place < self.order().len(),
        ensures
            entry.0@ == self.order()[place as int],
            entry.1 == self@[entry.0@],
    {
        (&self.names[place], self.rates[place])
    }

    /// Gives a name a rate; what it had before is gone.
    pub fn insert(&mut self, name: String, rate: Rate)
        requires
            old(self).wf(),
        ensures
            final(self).wf(),
            final(self)@ == old(self)@.insert(name@, rate),
            final(self).order() == (if old(self)@.contains_key(name@) {
                old(self).order()
            } else {
                old(self).order().push(name@)
            }),
    {
        let ghost before = *self;
        let found: Option<usize> = match self.places.get(name.as_str()) {
            Some(at) => Some(*at),
            None => None,
        };
        match found {
            Some(at) => {
                self.rates.set(at, rate);
                proof {
                    assert forall|other: Seq<char>|
                        self.places@.contains_key(other) && other != name@ implies self.places@[other]
                        != at by {
                        assert(self.names@[self.places@[other] as int]@ == other);
                    }
                }
            },
            None => {
                let at: usize = self.names.len();
                self.places.insert(name.clone(), at);
                self.names.push(name);
                self.rates.push(rate);
                proof {
                    assert forall|i: int| 0 <= i < self.names@.len() implies {
                        &&& self.places@.contains_key(#[trigger] self.names@[i]@)
                        &&& self.places@[self.names@[i]@] == i
                    } by {
                        if i < at {
                            assert(self.names@[i] == before.names@[i]);
                        }
                    }
                    assert(self.order() =~= before.order().push(name@));
                }
            },
        }
        assert(self@ =~= before@.insert(name@, rate));
    }

    /// The same names, in the same order, with the same rates.
    pub fn duplicate(&self) -> (copy: RateMap)
        requires
            self.wf(),
        ensures
            copy.wf(),
            copy@ == self@,
            copy.order() == self.order(),
    {
        let mut copy: RateMap = RateMap::new();
        let mut place: usize = 0;
        let length: usize = self.len();
        proof {
            self.lemma_order();
        }
        while place < length
            invariant
                self.wf(),
                copy.wf(),
                length == self.order().len(),
                place <= length,
                self.order().no_duplicates(),
                copy.order() == self.order().take(place as int),
                forall|name: Seq<char>|
                    copy@.contains_key(name) <==> self.order().take(place as int).contains(name),
                forall|name: Seq<char>|
                    copy@.contains_key(name) ==> #[trigger] copy@[name] == self@[name],
            decreases length - place,
        {
            let (name, rate) = self.at(place);
            proof {
                let next = self.order().take(place as int + 1);
                assert(next =~= self.order().take(place as int).push(name@));
                assert forall|other: Seq<char>|
                    next.contains(other) <==> (self.order().take(place as int).contains(other)
                        || other == name@) by {
                    if next.contains(other) {
                        let i = choose|i: int| 0 <= i < next.len() && next[i] == other;
                        if i < place {
                            assert(self.order().take(place as int)[i] == other);
                        }
                    }
                    if self.order().take(place as int).contains(other) {
                        let i = choose|i: int|
                            0 <= i < place && self.order().take(place as int)[i] == other;
                        assert(next[i] == other);
                    }
                    assert(next[place as int] == name@);
                }
                if self.order().take(place as int).contains(name@) {
                    let i = choose|i: int|
                        0 <= i < place && self.order().take(place as int)[i] == name@;
                    assert(self.order()[i] == self.order()[place as int]);
                }
            }
            copy.insert(name.clone(), rate);
            place = place + 1;
        }
        proof {
            assert(self.order().take(length as int) =~= self.order());
            assert forall|name: Seq<char>| #[trigger]
                copy@.contains_key(name) <==> self@.contains_key(name) by {
                if self.order().contains(name) {
                    let i = choose|i: int| 0 <= i < length && self.order()[i] == name;
                    assert(self@.contains_key(self.order()[i]));
                }
            }
            assert(copy@ =~= self@);
        }
        copy
    }
}

} // verus!
