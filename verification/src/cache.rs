use vstd::prelude::*;
use crate::card::{Card, CardView};

verus! {

/// The cards that were resolved, by the name under which each was asked
/// for. Entries keep the order in which their names first came.
pub struct Cache {
    names: Vec<String>,
    cards: Vec<Card>,
}

impl Cache {
    /// The names of the entries, in the order in which they first came.
    pub closed spec fn keys(&self) -> Seq<Seq<char>> {
        Seq::new(self.names@.len(), |i: int| self.names@[i]@)
    }

    /// The cards of the entries, in the order of [`Cache::keys`].
    pub closed spec fn values(&self) -> Seq<CardView> {
        Seq::new(self.cards@.len(), |i: int| self.cards@[i]@)
    }

    /// The invariant of the cache: every name has its card, and no name
    /// occurs twice.
    pub open spec fn wf(&self) -> bool {
        &&& self.keys().len() == self.values().len()
        &&& self.keys().no_duplicates()
    }
}

/// The mapping that a list of distinct names and a list of their cards
/// stand for.
pub open spec fn mapping(keys: Seq<Seq<char>>, values: Seq<CardView>) -> Map<Seq<char>, CardView> {
    Map::new(
        |name: Seq<char>| keys.contains(name),
        |name: Seq<char>| values[keys.index_of(name)],
    )
}

impl View for Cache {
    type V = Map<Seq<char>, CardView>;

    open spec fn view(&self) -> Map<Seq<char>, CardView> {
        mapping(self.keys(), self.values())
    }
}

impl Cache {
    /// The cache without entries.
    pub fn new() -> (cache: Self)
        ensures
            cache.wf(),
            cache@ == Map::<Seq<char>, CardView>::empty(),
            cache.keys() == Seq::<Seq<char>>::empty(),
    {
        let cache = Cache { names: Vec::new(), cards: Vec::new() };
        assert(cache@ =~= Map::<Seq<char>, CardView>::empty());
        assert(cache.keys() =~= Seq::<Seq<char>>::empty());
        cache
    }

    /// The number of entries.
    pub fn len(&self) -> (n: usize)
        requires
            self.wf(),
        ensures
            n == self.keys().len(),
    {
        self.names.len()
    }

    /// The name of the entry `i`.
    pub fn name_at(&self, i: usize) -> (name: &String)
        requires
            self.wf(),
            i < self.keys().len(),
        ensures
            name@ == self.keys()[i as int],
    {
        &self.names[i]
    }

    /// The card of the entry `i`.
    pub fn card_at(&self, i: usize) -> (card: &Card)
        requires
            self.wf(),
            i < self.keys().len(),
        ensures
            card@ == self.values()[i as int],
            self@.contains_key(self.keys()[i as int]),
            card@ == self@[self.keys()[i as int]],
    {
        proof {
            let name = self.keys()[i as int];
            assert(self.keys().contains(name));
            assert(self.keys().index_of(name) == i);
        }
        &self.cards[i]
    }

    /// The place of the entry with the name `name`.
    fn find(&self, name: &String) -> (at: Option<usize>)
        requires
            self.wf(),
        ensures
            match at {
                Some(i) => i < self.keys().len() && self.keys()[i as int] == name@,
                None => !self.keys().contains(name@),
            },
    {
        let mut i: usize = 0;
        while i < self.names.len()
            invariant
                i <= self.names@.len(),
                forall|k: int| 0 <= k < i ==> self.keys()[k] != name@,
            decreases self.names@.len() - i,
        {
            if self.names[i] == *name {
                return Some(i);
            }
            i += 1;
        }
        None
    }
}

/// The card that is kept under `name`, if there is one.
pub fn find_in_cache(cache: &Cache, name: &str) -> (card: Option<Card>)
    requires
        cache.wf(),
    ensures
        match card {
            Some(c) => cache@.contains_key(name@) && cache@[name@] == c@,
            None => !cache@.contains_key(name@),
        },
{
    let key = String::from_str(name);
    match cache.find(&key) {
        Some(i) => {
            assert(cache.keys().contains(name@));
            assert(cache.keys().index_of(name@) == i);
            Some(cache.cards[i].clone())
        },
        None => None,
    }
}

/// Keeps `card` under `name`, in place of the card that was kept under
/// that name, if there was one; the other entries stay.
pub fn store_in_cache(cache: &mut Cache, name: &str, card: &Card)
    requires
        old(cache).wf(),
    ensures
        final(cache).wf(),
        final(cache)@ == old(cache)@.insert(name@, card@),
        final(cache).keys() == if old(cache).keys().contains(name@) {
            old(cache).keys()
        } else {
            old(cache).keys().push(name@)
        },
{
    let key = String::from_str(name);
    let ghost keys = cache.keys();
    let ghost values = cache.values();
    match cache.find(&key) {
        Some(i) => {
            cache.cards[i] = card.clone();
            assert(cache.keys() =~= keys);
            assert(cache.values() =~= values.update(i as int, card@));
            assert(keys.contains(name@));
            assert(keys.index_of(name@) == i);
            assert(cache@ =~= old(cache)@.insert(name@, card@)) by {
                assert forall|k: Seq<char>| keys.contains(k) implies #[trigger] cache@[k] == old(cache)@.insert(name@, card@)[k] by {
                    let j = keys.index_of(k);
                    if k == name@ {
                    } else {
                        assert(j != i);
                    }
                }
            }
        },
        None => {
            cache.names.push(key);
            cache.cards.push(card.clone());
            assert(cache.keys() =~= keys.push(name@));
            assert(cache.values() =~= values.push(card@));
            assert(cache.keys().no_duplicates());
            assert(cache@ =~= old(cache)@.insert(name@, card@)) by {
                assert forall|k: Seq<char>| cache.keys().contains(k) <==> k == name@
                    || keys.contains(k) by {
                    if keys.contains(k) {
                        let j = keys.index_of(k);
                        assert(cache.keys()[j] == k);
                    }
                    if k == name@ {
                        assert(cache.keys()[keys.len() as int] == k);
                    }
                }
                assert forall|k: Seq<char>| cache.keys().contains(k) implies #[trigger] cache@[k]
                    == old(cache)@.insert(name@, card@)[k] by {
                    let j = cache.keys().index_of(k);
                    if k == name@ {
                        assert(cache.keys()[keys.len() as int] == k);
                        assert(j == keys.len());
                    } else {
                        assert(keys.contains(k));
                        let j0 = keys.index_of(k);
                        assert(cache.keys()[j0] == k);
                        assert(j == j0);
                    }
                }
            }
        },
    }
}

} // verus!
