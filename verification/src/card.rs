use vstd::prelude::*;

verus! {

/// A resolved card: its canonical name, its exact mana value and its type
/// words in the order of the type line.
#[derive(Debug, PartialEq, Eq)]
pub struct Card {
    pub name: String,
    pub cmc: u8,
    pub types: Vec<String>,
}

/// The mathematical value of a [`Card`].
pub struct CardView {
    pub name: Seq<char>,
    pub cmc: u8,
    pub types: Seq<Seq<char>>,
}

/// The texts held by a sequence of strings.
pub open spec fn texts(v: Seq<String>) -> Seq<Seq<char>> {
    Seq::new(v.len(), |i: int| v[i]@)
}

impl View for Card {
    type V = CardView;

    open spec fn view(&self) -> CardView {
        CardView { name: self.name@, cmc: self.cmc, types: texts(self.types@) }
    }
}

impl Clone for Card {
    fn clone(&self) -> (r: Self)
        ensures
            r@ == self@,
    {
        let types = self.types.clone();
        assert(texts(types@) =~= texts(self.types@));
        Card { name: self.name.clone(), cmc: self.cmc, types }
    }
}

} // verus!
