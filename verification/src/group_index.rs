//! Where the row of each group stands.
use crate::usage_summary::Group;
use vstd::hash_map::StringHashMap;
use vstd::prelude::*;
use vstd::string::*;

verus! {

/// Places by provider and model. A provider has a number, and under it a map
/// from its models to their places.
pub struct GroupIndex {
    providers: StringHashMap<usize>,
    models: Vec<StringHashMap<usize>>,
}

impl View for GroupIndex {
    type V = Map<Group, usize>;

    closed spec fn view(&self) -> Map<Group, usize> {
        Map::new(
            |group: Group|
                self.providers@.contains_key(group.provider)
                    && self.models@[self.providers@[group.provider] as int]@.contains_key(
                    group.model,
                ),
            |group: Group| self.models@[self.providers@[group.provider] as int]@[group.model],
        )
    }
}

impl GroupIndex {
    /// Every provider has a number of its own.
    pub closed spec fn wf(&self) -> bool {
        &&& forall|provider: Seq<char>| #[trigger]
            self.providers@.contains_key(provider) ==> self.providers@[provider]
                < self.models@.len()
        &&& forall|one: Seq<char>, other: Seq<char>| #[trigger]
            self.providers@.contains_key(one) && #[trigger] self.providers@.contains_key(other)
                && self.providers@[one] == self.providers@[other] ==> one == other
    }

    pub fn new() -> (index: GroupIndex)
        ensures
            index.wf(),
            index@ == Map::<Group, usize>::empty(),
    {
        let index: GroupIndex = GroupIndex {
            providers: StringHashMap::new(),
            models: Vec::new(),
        };
        assert(index@ =~= Map::<Group, usize>::empty());
        index
    }

    /// The place of a group, if it has one.
    pub fn get(&self, provider: &str, model: &str) -> (place: Option<usize>)
        requires
            self.wf(),
        ensures
            place == ({
                let group = Group { provider: provider@, model: model@ };
                if self@.contains_key(group) {
                    Some(self@[group])
                } else {
                    None
                }
            }),
    {
        match self.providers.get(provider) {
            Some(number) => match self.models[*number].get(model) {
                Some(place) => Some(*place),
                None => None,
            },
            None => None,
        }
    }

    /// Gives a group a place.
    pub fn insert(&mut self, provider: String, model: String, place: usize)
        requires
            old(self).wf(),
        ensures
            final(self).wf(),
            final(self)@ == old(self)@.insert(
                Group { provider: provider@, model: model@ },
                place,
            ),
    {
        let ghost before = *self;
        let known: Option<usize> = match self.providers.get(provider.as_str()) {
            Some(number) => Some(*number),
            None => None,
        };
        let number: usize = match known {
            Some(number) => number,
            None => {
                let next: usize = self.models.len();
                self.models.push(StringHashMap::new());
                self.providers.insert(provider, next);
                next
            },
        };
        self.models[number].insert(model, place);
        assert(self@ =~= before@.insert(Group { provider: provider@, model: model@ }, place));
    }
}

} // verus!
